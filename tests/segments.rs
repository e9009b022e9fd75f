use nouzdb::codec::append_segment;
use nouzdb::memtable::RawSegment;
use nouzdb::merge::{compact, merge_segments};
use nouzdb::segment::{read_segment, scan};
use nouzdb::table::Table;
use nouzdb::store::should_merge;
use nouzdb::{Segment, SegmentSet};

fn pairs(items: &[(&str, &str)]) -> Vec<(Vec<u8>, Vec<u8>)> {
    items.iter().map(|(k, v)| (k.as_bytes().to_vec(), v.as_bytes().to_vec())).collect()
}

fn segment_file(items: &[(&str, &str)]) -> Vec<u8> {
    let mut out = Vec::new();
    for (k, v) in items {
        append_segment(&mut out, k.as_bytes(), v.as_bytes());
    }
    out
}

#[test]
fn index_correctness_on_large_segment() {
    let mut out = Vec::new();
    let mut keys = Vec::new();
    for i in 0..10_000u32 {
        let key = format!("key-{:012}", i).into_bytes();
        assert_eq!(key.len(), 16);
        append_segment(&mut out, &key, format!("value{}", i).as_bytes());
        keys.push(key);
    }
    let mut seg = Segment::new();
    seg.initialize_index(&out, 4096);
    let expected = out.len() / 4096;
    let n = seg.index_len();
    assert!(n + 2 >= expected && n <= expected + 2, "index has {} entries for {}", n, expected);
    assert_eq!(seg.get(&out, &keys[0]), Some(b"value0".to_vec()));
    assert_eq!(seg.get(&out, &keys[9_999]), Some(b"value9999".to_vec()));
    let mut x: u64 = 12345;
    for _ in 0..50 {
        x = x.wrapping_mul(6364136223846793005).wrapping_add(1442695040888963407);
        let i = (x >> 33) as usize % 10_000;
        assert_eq!(seg.get(&out, &keys[i]), Some(format!("value{}", i).into_bytes()));
    }
    assert_eq!(seg.get(&out, b"key-000000005000x"), None);
    assert_eq!(seg.get(&out, b"a"), None);
    assert_eq!(seg.get(&out, b"zzz"), None);
}

#[test]
fn lookup_without_index_scans_from_start() {
    let file = segment_file(&[("a", "1"), ("c", "3"), ("e", "5")]);
    let seg = Segment::new();
    assert_eq!(seg.index_len(), 0);
    assert_eq!(seg.get(&file, b"c"), Some(b"3".to_vec()));
    assert_eq!(seg.get(&file, b"d"), None);
    assert_eq!(scan(&file, 0, b"e"), Some(b"5".to_vec()));
}

#[test]
fn tiny_blocks_index_every_record_but_the_first() {
    let file = segment_file(&[("a", "1"), ("b", "2"), ("c", "3")]);
    let mut seg = Segment::new();
    seg.initialize_index(&file, 1);
    assert_eq!(seg.index_len(), 2);
    assert_eq!(seg.get(&file, b"a"), Some(b"1".to_vec()));
    assert_eq!(seg.get(&file, b"b"), Some(b"2".to_vec()));
    assert_eq!(seg.get(&file, b"c"), Some(b"3".to_vec()));
}

#[test]
fn raw_segment_writes_sorted_records() {
    let mut t = Table::new();
    t.insert(b"b".to_vec(), b"2".to_vec());
    t.insert(b"a".to_vec(), b"1".to_vec());
    let raw = RawSegment::from(t);
    let bytes = raw.to_bytes();
    assert_eq!(bytes, b"a,1\nb,2\n".to_vec());
    assert_eq!(read_segment(&bytes), pairs(&[("a", "1"), ("b", "2")]));
}

#[test]
fn merge_prefers_newer() {
    let older = pairs(&[("a", "old"), ("b", "old"), ("d", "old")]);
    let newer = pairs(&[("b", "new"), ("c", "new")]);
    let merged = merge_segments(&vec![older, newer]);
    assert_eq!(merged, pairs(&[("a", "old"), ("b", "new"), ("c", "new"), ("d", "old")]));
}

#[test]
fn merge_segments_newest_wins() {
    let inputs = vec![
        pairs(&[("k", "1"), ("x", "1")]),
        pairs(&[("k", "2")]),
        pairs(&[("a", "3"), ("k", "3")]),
    ];
    let merged = merge_segments(&inputs);
    assert_eq!(merged, pairs(&[("a", "3"), ("k", "3"), ("x", "1")]));
    assert!(merge_segments(&Vec::new()).is_empty());
}

#[test]
fn compact_files() {
    let files = vec![segment_file(&[("k", "old"), ("z", "1")]), segment_file(&[("k", "new")])];
    let out = compact(&files).unwrap();
    assert_eq!(out, b"k,new\nz,1\n".to_vec());
}

#[test]
fn compact_refuses_unsorted_file() {
    let files = vec![segment_file(&[("b", "1"), ("a", "2")]), segment_file(&[("k", "new")])];
    assert_eq!(compact(&files), None);
}

#[test]
fn segment_set_orders_ids() {
    let mut set = SegmentSet::new(4);
    assert_eq!(set.allocate_id(), Some(5));
    set.install(5, Segment::new());
    set.install(2, Segment::new());
    set.install(9, Segment::new());
    assert_eq!(set.id_list(), vec![2, 5, 9]);
    assert_eq!(set.allocate_id(), Some(10));
    assert!(set.remove(5).is_some());
    assert!(set.remove(5).is_none());
    assert_eq!(set.id_list(), vec![2, 9]);
    assert_eq!(set.len(), 2);
}

#[test]
fn ids_run_out() {
    let mut set = SegmentSet::new(u64::MAX);
    assert_eq!(set.allocate_id(), None);
}

#[test]
fn newer_segment_masks_older() {
    let mut set = SegmentSet::new(0);
    let older = segment_file(&[("k", "old"), ("o", "only-old")]);
    let newer = segment_file(&[("k", "new")]);
    set.install(1, Segment::new());
    set.install(2, Segment::new());
    let files = vec![older, newer];
    assert_eq!(set.get(&files, b"k"), Some(b"new".to_vec()));
    assert_eq!(set.get(&files, b"o"), Some(b"only-old".to_vec()));
    assert_eq!(set.get(&files, b"none"), None);
}

#[test]
fn merge_with_empty_runs() {
    let inputs = vec![pairs(&[("b", "1")]), Vec::new(), pairs(&[("a", "2"), ("b", "2"), ("c", "2")]), Vec::new()];
    assert_eq!(merge_segments(&inputs), pairs(&[("a", "2"), ("b", "2"), ("c", "2")]));
}

#[test]
fn lookup_reads_from_the_start_offset() {
    let items: Vec<(String, String)> = (0..200).map(|i| (format!("key{:04}", i), format!("v{}", i))).collect();
    let refs: Vec<(&str, &str)> = items.iter().map(|(k, v)| (k.as_str(), v.as_str())).collect();
    let file = segment_file(&refs);
    let mut seg = Segment::new();
    seg.initialize_index(&file, 256);
    let mut set = SegmentSet::new(0);
    set.install(1, seg);
    let offset = set.start_offset_at(0, b"key0150");
    assert!(offset > 0);
    assert_eq!(scan(&file[offset..], 0, b"key0150"), Some(b"v150".to_vec()));
    assert_eq!(set.start_offset_at(0, b"a"), 0);
}

#[test]
fn merge_runs_when_due() {
    assert!(should_merge(3_600_000, 3_600_000, 2));
    assert!(!should_merge(3_599_999, 3_600_000, 5));
    assert!(!should_merge(10, 0, 1));
}
