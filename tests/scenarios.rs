use nouzdb::codec::encode_log;
use nouzdb::memtable::Memtable;
use nouzdb::merge::compact;
use nouzdb::names::scan_dir;
use nouzdb::{RawSegment, Segment, SegmentSet};
use std::collections::BTreeMap;

/// A directory kept in memory: file name to contents.
type Disk = BTreeMap<String, Vec<u8>>;

/// A store run by hand over an in-memory directory, one step at a time.
struct Db {
    disk: Disk,
    mem: Memtable,
    segs: SegmentSet,
    block_size: u64,
}

fn log_name(id: u64) -> String {
    format!("{}.log", id)
}

fn data_name(id: u64) -> String {
    format!("{}.data", id)
}

impl Db {
    fn open(mut disk: Disk, switch_mem_size: usize, block_size: u64) -> Db {
        let names: Vec<String> = disk.keys().cloned().collect();
        let listing = match scan_dir(&names, "log", "data") {
            Ok(l) => l,
            Err(e) => panic!("scan failed: {:?}", e),
        };
        let logs: Vec<(u64, Vec<u8>)> = listing
            .logs
            .iter()
            .map(|(id, name)| (*id, disk[name].clone()))
            .collect();
        let rec = Memtable::new(logs, switch_mem_size);
        let active_name = log_name(rec.memtable.active_log_id());
        let active = disk.entry(active_name).or_default();
        active.truncate(rec.truncate_at);
        for id in rec.stale_logs.iter() {
            disk.remove(&log_name(*id));
        }
        let mut segs = SegmentSet::new(listing.max_segment_id);
        for (id, name) in listing.segments.iter() {
            let mut seg = Segment::new();
            seg.initialize_index(&disk[name], block_size);
            segs.install(*id, seg);
        }
        let mut db = Db { disk, mem: rec.memtable, segs, block_size };
        if let Some(raw) = rec.frozen {
            db.flush(raw);
        }
        db
    }

    fn set(&mut self, key: &[u8], value: &[u8]) {
        let record = encode_log(key, value);
        let name = log_name(self.mem.active_log_id());
        self.disk.entry(name).or_default().extend_from_slice(&record);
        self.mem.set(key.to_vec(), value.to_vec());
        if self.mem.should_switch() {
            self.disk.insert(log_name(self.mem.active_log_id() + 1), Vec::new());
            if let Some(raw) = self.mem.try_switch() {
                self.flush(raw);
            }
        }
    }

    fn flush(&mut self, raw: RawSegment) {
        let id = self.segs.allocate_id().unwrap();
        let bytes = raw.to_bytes();
        let mut seg = Segment::new();
        seg.initialize_index(&bytes, self.block_size);
        self.disk.insert(data_name(id), bytes);
        self.segs.install(id, seg);
        if let Some(log_id) = self.mem.finalize_switch() {
            self.disk.remove(&log_name(log_id));
        }
    }

    fn get(&self, key: &[u8]) -> Option<Vec<u8>> {
        if let Some(v) = self.mem.get(key) {
            return Some(v);
        }
        let files: Vec<Vec<u8>> = self
            .segs
            .id_list()
            .iter()
            .map(|id| self.disk[&data_name(*id)].clone())
            .collect();
        self.segs.get(&files, key)
    }

    fn compact(&mut self) {
        let ids = self.segs.id_list();
        if ids.len() < 2 {
            return;
        }
        let new_id = self.segs.allocate_id().unwrap();
        let files: Vec<Vec<u8>> = ids.iter().map(|id| self.disk[&data_name(*id)].clone()).collect();
        let bytes = compact(&files).unwrap();
        let mut seg = Segment::new();
        seg.initialize_index(&bytes, self.block_size);
        self.disk.insert(data_name(new_id), bytes);
        for id in ids.iter() {
            self.segs.remove(*id);
            self.disk.remove(&data_name(*id));
        }
        self.segs.install(new_id, seg);
    }

    fn force_flush(&mut self) {
        if let Some(raw) = self.mem.to_raw_segment() {
            if raw.is_empty() {
                return;
            }
            let log = self.mem.active_log_id();
            self.flush(raw);
            self.disk.remove(&log_name(log));
        }
    }

    fn crash(self) -> Disk {
        self.disk
    }

    fn segment_files(&self) -> usize {
        self.disk.keys().filter(|n| n.ends_with(".data")).count()
    }
}

#[test]
fn basic_put_get() {
    let mut db = Db::open(Disk::new(), 1024 * 1024, 4096);
    db.set(b"hello", b"world");
    assert_eq!(db.get(b"hello"), Some(b"world".to_vec()));
    assert_eq!(db.get(b"missing"), None);
}

#[test]
fn overwrite() {
    let mut db = Db::open(Disk::new(), 1024 * 1024, 4096);
    db.set(b"k", b"v1");
    db.set(b"k", b"v2");
    assert_eq!(db.get(b"k"), Some(b"v2".to_vec()));
}

#[test]
fn crash_recover() {
    let mut db = Db::open(Disk::new(), 1024, 4096);
    let value = vec![b'x'; 100];
    for i in 0..5 {
        db.set(format!("a{}", i).as_bytes(), &value);
    }
    let disk = db.crash();
    let db = Db::open(disk, 1024, 4096);
    for i in 0..5 {
        assert_eq!(db.get(format!("a{}", i).as_bytes()), Some(value.clone()));
    }
}

#[test]
fn crash_recover_after_switches() {
    let mut db = Db::open(Disk::new(), 64, 128);
    for i in 0..40 {
        db.set(format!("key{:04}", i).as_bytes(), format!("v{}", i).as_bytes());
    }
    db.set(b"key0003", b"again");
    let disk = db.crash();
    let db = Db::open(disk, 64, 128);
    assert_eq!(db.get(b"key0003"), Some(b"again".to_vec()));
    for i in 4..40 {
        assert_eq!(db.get(format!("key{:04}", i).as_bytes()), Some(format!("v{}", i).into_bytes()));
    }
}

#[test]
fn torn_log_tail_is_cut() {
    let mut db = Db::open(Disk::new(), 1024 * 1024, 4096);
    db.set(b"a", b"1");
    db.set(b"b", b"2");
    let mut disk = db.crash();
    let log = disk.get_mut("1.log").unwrap();
    let good = log.len();
    log.extend_from_slice(b"\x01\x02\x03\x04,half-writ");
    let db = Db::open(disk, 1024 * 1024, 4096);
    assert_eq!(db.get(b"a"), Some(b"1".to_vec()));
    assert_eq!(db.get(b"b"), Some(b"2".to_vec()));
    assert_eq!(db.disk["1.log"].len(), good);
}

#[test]
fn flush_and_lookup_from_segment() {
    let mut db = Db::open(Disk::new(), 64, 4096);
    for i in 0..100 {
        db.set(format!("key{:04}", i).as_bytes(), format!("v{}", i).as_bytes());
    }
    assert!(db.segment_files() >= 1);
    assert_eq!(db.get(b"key0050"), Some(b"v50".to_vec()));
    for i in 0..100 {
        assert_eq!(db.get(format!("key{:04}", i).as_bytes()), Some(format!("v{}", i).into_bytes()));
    }
}

#[test]
fn compaction_coalesces_duplicates() {
    let mut db = Db::open(Disk::new(), 1024 * 1024, 4096);
    db.set(b"k", b"old");
    db.force_flush();
    db.set(b"k", b"new");
    db.force_flush();
    assert_eq!(db.segment_files(), 2);
    db.compact();
    assert_eq!(db.segment_files(), 1);
    assert_eq!(db.get(b"k"), Some(b"new".to_vec()));
}

#[test]
fn compaction_keeps_every_key() {
    let mut db = Db::open(Disk::new(), 64, 64);
    for round in 0..3 {
        for i in 0..30 {
            db.set(format!("k{:03}", i).as_bytes(), format!("r{}-{}", round, i).as_bytes());
        }
    }
    let before: Vec<Option<Vec<u8>>> = (0..30).map(|i| db.get(format!("k{:03}", i).as_bytes())).collect();
    db.compact();
    db.compact();
    let after: Vec<Option<Vec<u8>>> = (0..30).map(|i| db.get(format!("k{:03}", i).as_bytes())).collect();
    assert_eq!(before, after);
    assert_eq!(after[7], Some(b"r2-7".to_vec()));
}

#[test]
fn reopen_after_compaction() {
    let mut db = Db::open(Disk::new(), 32, 64);
    for i in 0..20 {
        db.set(format!("k{:02}", i).as_bytes(), b"first");
    }
    for i in 0..20 {
        db.set(format!("k{:02}", i).as_bytes(), b"second");
    }
    db.compact();
    let disk = db.crash();
    let db = Db::open(disk, 32, 64);
    for i in 0..20 {
        assert_eq!(db.get(format!("k{:02}", i).as_bytes()), Some(b"second".to_vec()));
    }
}

#[test]
fn crash_during_flush_reads_the_same() {
    let mut disk = Disk::new();
    let mut frozen = encode_log(b"a", b"1");
    frozen.extend_from_slice(&encode_log(b"b", b"1"));
    disk.insert("1.log".to_string(), frozen);
    disk.insert("2.log".to_string(), encode_log(b"b", b"2"));
    disk.insert("1.tmp".to_string(), b"a,1\nb,".to_vec());
    let db = Db::open(disk, 1024 * 1024, 4096);
    assert_eq!(db.get(b"a"), Some(b"1".to_vec()));
    assert_eq!(db.get(b"b"), Some(b"2".to_vec()));
    assert!(!db.disk.contains_key("1.log"));
    assert_eq!(db.segment_files(), 1);
}

#[test]
fn crash_after_rename_before_log_removal() {
    let mut disk = Disk::new();
    disk.insert("1.log".to_string(), encode_log(b"k", b"v"));
    disk.insert("2.log".to_string(), Vec::new());
    disk.insert("1.data".to_string(), b"k,v\n".to_vec());
    let db = Db::open(disk, 1024 * 1024, 4096);
    assert_eq!(db.get(b"k"), Some(b"v".to_vec()));
    assert_eq!(db.get(b"other"), None);
}
