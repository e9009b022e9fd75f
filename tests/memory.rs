use nouzdb::builder::{DEFAULT_BLOCK_SIZE, DEFAULT_SWITCH_MEM_SIZE};
use nouzdb::codec::encode_log;
use nouzdb::memtable::replay_log;
use nouzdb::table::Table;
use nouzdb::{DatabaseBuilder, Memtable};
use std::time::Duration;

#[test]
fn table_keeps_keys_sorted_and_unique() {
    let mut t = Table::new();
    assert!(t.is_empty());
    assert_eq!(t.insert(b"b".to_vec(), b"2".to_vec()), None);
    assert_eq!(t.insert(b"a".to_vec(), b"1".to_vec()), None);
    assert_eq!(t.insert(b"c".to_vec(), b"3".to_vec()), None);
    assert_eq!(t.insert(b"b".to_vec(), b"22".to_vec()), Some(b"2".to_vec()));
    let keys: Vec<Vec<u8>> = t.entries().iter().map(|(k, _)| k.clone()).collect();
    assert_eq!(keys, vec![b"a".to_vec(), b"b".to_vec(), b"c".to_vec()]);
    assert_eq!(t.get(b"b"), Some(&b"22".to_vec()));
    assert_eq!(t.get(b"bb"), None);
    assert_eq!(t.len(), 3);
}

#[test]
fn byte_order_is_unsigned() {
    let mut t = Table::new();
    t.insert(vec![0xff], b"high".to_vec());
    t.insert(vec![0x01], b"low".to_vec());
    t.insert(vec![0x01, 0x00], b"longer".to_vec());
    let keys: Vec<Vec<u8>> = t.entries().iter().map(|(k, _)| k.clone()).collect();
    assert_eq!(keys, vec![vec![0x01], vec![0x01, 0x00], vec![0xff]]);
}

#[test]
fn memtable_counts_active_bytes() {
    let rec = Memtable::new(Vec::new(), 10);
    let mut m = rec.memtable;
    assert_eq!(m.active_log_id(), 1);
    assert_eq!(rec.truncate_at, 0);
    m.set(b"ab".to_vec(), b"xyz".to_vec());
    assert_eq!(m.active_size(), 5);
    m.set(b"ab".to_vec(), b"q".to_vec());
    assert_eq!(m.active_size(), 3);
    assert!(!m.should_switch());
    m.set(b"cd".to_vec(), b"123456".to_vec());
    assert_eq!(m.active_size(), 11);
    assert!(m.should_switch());
}

#[test]
fn switch_freezes_active_table() {
    let mut m = Memtable::new(Vec::new(), 4).memtable;
    m.set(b"key".to_vec(), b"value".to_vec());
    let raw = m.try_switch().unwrap();
    assert!(!raw.is_empty());
    assert_eq!(m.active_log_id(), 2);
    assert_eq!(m.freeze_log_id(), Some(1));
    assert_eq!(m.active_size(), 0);
    assert_eq!(m.get(b"key"), Some(b"value".to_vec()));
    m.set(b"other".to_vec(), b"value".to_vec());
    assert!(m.try_switch().is_none());
    m.set(b"key".to_vec(), b"newer".to_vec());
    assert_eq!(m.get(b"key"), Some(b"newer".to_vec()));
    assert_eq!(m.finalize_switch(), Some(1));
    assert_eq!(m.freeze_log_id(), None);
    assert_eq!(m.get(b"key"), Some(b"newer".to_vec()));
    assert!(m.try_switch().is_some());
}

#[test]
fn no_switch_at_threshold() {
    let mut m = Memtable::new(Vec::new(), 5).memtable;
    m.set(b"ab".to_vec(), b"xyz".to_vec());
    assert!(m.try_switch().is_none());
}

#[test]
fn draining_the_active_table() {
    let mut m = Memtable::new(Vec::new(), 100).memtable;
    assert!(m.active_is_empty());
    m.set(b"k".to_vec(), b"v".to_vec());
    let raw = m.to_raw_segment().unwrap();
    assert_eq!(raw.to_bytes(), b"k,v\n".to_vec());
    assert!(m.active_is_empty());
    assert_eq!(m.active_size(), 0);
}

#[test]
fn replay_stops_at_first_bad_record() {
    let mut log = encode_log(b"a", b"1");
    log.extend_from_slice(&encode_log(b"b", b"2"));
    let good = log.len();
    let mut bad = encode_log(b"c", b"3");
    bad[0] ^= 0x40;
    log.extend_from_slice(&bad);
    log.extend_from_slice(&encode_log(b"d", b"4"));
    let (table, next, size) = replay_log(&log);
    assert_eq!(next, good);
    assert_eq!(size, 4);
    assert_eq!(table.len(), 2);
    assert_eq!(table.get(b"d"), None);
}

#[test]
fn recovery_uses_two_newest_logs() {
    let old = encode_log(b"x", b"oldest");
    let mut frozen = encode_log(b"k", b"frozen");
    frozen.extend_from_slice(&encode_log(b"f", b"1"));
    let active = encode_log(b"k", b"active");
    let rec = Memtable::new(vec![(3, old), (7, frozen), (9, active)], 1024);
    assert_eq!(rec.stale_logs, vec![3]);
    assert_eq!(rec.memtable.active_log_id(), 9);
    assert_eq!(rec.memtable.freeze_log_id(), Some(7));
    assert_eq!(rec.memtable.get(b"k"), Some(b"active".to_vec()));
    assert_eq!(rec.memtable.get(b"f"), Some(b"1".to_vec()));
    assert_eq!(rec.memtable.get(b"x"), None);
    let raw = rec.frozen.unwrap();
    assert_eq!(raw.to_bytes(), b"f,1\nk,frozen\n".to_vec());
}

#[test]
fn builder_defaults_and_setters() {
    let mut b = DatabaseBuilder::default();
    assert_eq!(b.get_log_suffix(), "log");
    assert_eq!(b.get_data_suffix(), "data");
    assert_eq!(b.get_switch_mem_size(), DEFAULT_SWITCH_MEM_SIZE);
    assert_eq!(b.get_merge_period(), Duration::from_secs(3600));
    assert_eq!(b.get_poll_period(), Duration::from_millis(100));
    assert_eq!(b.get_block_size(), DEFAULT_BLOCK_SIZE);
    b.log_suffix("wal")
        .data_suffix("sst")
        .switch_mem_size(64)
        .merge_period(Duration::from_secs(5))
        .poll_period(Duration::from_millis(7))
        .block_size(512);
    assert_eq!(b.get_log_suffix(), "wal");
    assert_eq!(b.get_data_suffix(), "sst");
    assert_eq!(b.get_switch_mem_size(), 64);
    assert_eq!(b.get_merge_period(), Duration::from_secs(5));
    assert_eq!(b.get_poll_period(), Duration::from_millis(7));
    assert_eq!(b.get_block_size(), 512);
}

#[test]
fn frozen_table_can_be_written_again() {
    let mut m = Memtable::new(Vec::new(), 1).memtable;
    assert!(m.frozen_segment().is_none());
    m.set(b"k".to_vec(), b"v".to_vec());
    let first = m.try_switch().unwrap();
    let again = m.frozen_segment().unwrap();
    assert_eq!(first.to_bytes(), again.to_bytes());
    assert_eq!(m.finalize_switch(), Some(1));
    assert!(m.frozen_segment().is_none());
}

#[test]
fn recovered_size_counts_last_values() {
    let mut log = encode_log(b"ab", b"xyz");
    log.extend_from_slice(&encode_log(b"ab", b"q"));
    log.extend_from_slice(&encode_log(b"c", b""));
    let rec = Memtable::new(vec![(4, log)], 1024);
    assert_eq!(rec.memtable.active_size(), 4);
}
