//! The two-tier memtable: an active table that takes writes and at most one
//! frozen table that waits to be written out as a segment. Each table is
//! mirrored by a log file; writing and removing those files is the caller's
//! part, the tables and the decisions are here.

use vstd::prelude::*;
use crate::codec::{decode_log, decode_log_fields, append_segment, segment_line, log_line, lemma_log_round_trip};
use crate::framing::{read_record, record_at, lemma_record_fields_len, views};
use crate::table::{Pair, Table, to_map, map_get, opt_view, pairs_of, pairs_size, strictly_sorted};
use crate::segment::{segment_pairs, lemma_segment_file_round_trip};
use crate::keys::copy_bytes;

verus! {

/// The pairs of the log records from `p` on, after `acc`, up to the first
/// record that does not decode, and the position where that record starts.
pub open spec fn replay_from(b: Seq<u8>, p: int, acc: Seq<Pair>) -> (Seq<Pair>, int)
    decreases b.len() - p,
{
    if p < 0 || p >= b.len() {
        (acc, p)
    } else {
        match record_at(b, p) {
            None => (acc, p),
            Some((fs, q)) => match decode_log_fields(fs) {
                None => (acc, p),
                Some(kv) => if q <= p || q > b.len() {
                    (acc, p)
                } else {
                    replay_from(b, q, acc.push(kv))
                },
            },
        }
    }
}

/// The pairs of a log, in the order written, and the end of its last good
/// record.
pub open spec fn replay(b: Seq<u8>) -> (Seq<Pair>, int) {
    replay_from(b, 0, Seq::empty())
}

/// The segment file of a sequence of pairs: their records one after another.
pub open spec fn segment_bytes(s: Seq<Pair>) -> Seq<u8>
    decreases s.len(),
{
    if s.len() == 0 {
        Seq::empty()
    } else {
        segment_bytes(s.drop_last()) + segment_line(s.last().0, s.last().1)
    }
}

/// Replays a log: the table of its good records, the end of the last good
/// record, and the table's size.
pub fn replay_log(b: &[u8]) -> (r: (Table, usize, usize))
    ensures
        r.0.wf(),
        r.0@ == to_map(replay(b@).0),
        r.1 as int == replay(b@).1,
        r.2 == r.0.size(),
{
    let mut table = Table::new();
    let mut pos: usize = 0;
    let mut size: usize = 0;
    let ghost mut acc: Seq<Pair> = Seq::empty();
    assert(to_map(acc) == Map::<Seq<u8>, Seq<u8>>::empty());
    loop
        invariant
            pos <= b.len(),
            replay(b@) == replay_from(b@, pos as int, acc),
            table.wf(),
            table@ == to_map(acc),
            size == table.size(),
            table.size() <= pos,
        decreases b.len() - pos,
    {
        proof {
            lemma_record_fields_len(b@, pos as int);
        }
        if pos >= b.len() {
            return (table, pos, size);
        }
        match read_record(b, pos) {
            None => {
                return (table, pos, size);
            },
            Some((fields, next)) => {
                match decode_log(&fields) {
                    None => {
                        return (table, pos, size);
                    },
                    Some((key, value)) => {
                        let ghost kv = (key@, value@);
                        let value_len = value.len();
                        let key_len = key.len();
                        match table.insert(key, value) {
                            Some(old) => {
                                size = size + value_len - old.len();
                            },
                            None => {
                                size = size + key_len + value_len;
                            },
                        }
                        proof {
                            assert(acc.push(kv).drop_last() == acc);
                            acc = acc.push(kv);
                        }
                        pos = next;
                    },
                }
            },
        }
    }
}

/// A frozen table on its way to becoming a segment.
pub struct RawSegment {
    freeze: Table,
}

impl RawSegment {
    /// The pairs, in ascending key order.
    pub closed spec fn pairs(&self) -> Seq<Pair> {
        self.freeze.pairs()
    }

    /// The map that the segment will hold.
    pub open spec fn view(&self) -> Map<Seq<u8>, Seq<u8>> {
        to_map(self.pairs())
    }

    /// The table's keys ascend strictly.
    pub open spec fn wf(&self) -> bool {
        strictly_sorted(self.pairs())
    }

    /// A raw segment of a table.
    pub fn from(freeze: Table) -> (r: RawSegment)
        requires
            freeze.wf(),
        ensures
            r.wf(),
            r.pairs() == freeze.pairs(),
    {
        RawSegment { freeze }
    }

    /// Whether it holds no pair.
    pub fn is_empty(&self) -> (r: bool)
        ensures
            r == (self.pairs().len() == 0),
    {
        self.freeze.len() == 0
    }

    /// The bytes of the segment file: one record per pair, in key order.
    pub fn to_bytes(&self) -> (r: Vec<u8>)
        ensures
            r@ == segment_bytes(self.pairs()),
            segment_pairs(r@) == self.pairs(),
            self.wf() ==> strictly_sorted(segment_pairs(r@)),
    {
        proof {
            lemma_segment_file_round_trip(self.pairs());
        }
        let entries = self.freeze.entries();
        let ghost s = self.pairs();
        let mut out: Vec<u8> = Vec::new();
        let mut i: usize = 0;
        while i < entries.len()
            invariant
                s == pairs_of(entries@),
                0 <= i <= entries.len(),
                out@ == segment_bytes(s.subrange(0, i as int)),
            decreases entries.len() - i,
        {
            append_segment(&mut out, entries[i].0.as_slice(), entries[i].1.as_slice());
            assert(s.subrange(0, i + 1).drop_last() == s.subrange(0, i as int));
            i = i + 1;
        }
        assert(s.subrange(0, i as int) == s);
        out
    }
}

/// What recovering the memtable from its logs gives: the memtable, the
/// frozen table to flush at once if there is one, where to cut the active
/// log, and the older logs to remove.
pub struct Recovery {
    /// The recovered memtable.
    pub memtable: Memtable,
    /// The frozen table, to be written out as a segment.
    pub frozen: Option<RawSegment>,
    /// Length to which the active log is cut: the end of its last good record.
    pub truncate_at: usize,
    /// Ids of the logs older than the two newest, to be removed.
    pub stale_logs: Vec<u64>,
}

/// The in-memory part of the write path.
pub struct Memtable {
    active: Table,
    frozen: Option<Table>,
    active_size: usize,
    active_log_id: u64,
    freeze_log_id: Option<u64>,
    switch_active_size: usize,
}

/// The ids ascend strictly.
pub open spec fn ids_ascending(logs: Seq<(u64, Vec<u8>)>) -> bool {
    forall|i: int, j: int| 0 <= i < j < logs.len() ==> #[trigger] logs[i].0 < #[trigger] logs[j].0
}

impl Memtable {
    /// The active table's pairs, in ascending key order.
    pub closed spec fn active_pairs(&self) -> Seq<Pair> {
        self.active.pairs()
    }

    /// The frozen table's pairs, in ascending key order, if there is one.
    pub closed spec fn frozen_pairs(&self) -> Option<Seq<Pair>> {
        match self.frozen {
            Some(t) => Some(t.pairs()),
            None => None,
        }
    }

    /// The active table's map.
    pub open spec fn active_view(&self) -> Map<Seq<u8>, Seq<u8>> {
        to_map(self.active_pairs())
    }

    /// The frozen table's map, if there is one.
    pub open spec fn frozen_view(&self) -> Option<Map<Seq<u8>, Seq<u8>>> {
        match self.frozen_pairs() {
            Some(p) => Some(to_map(p)),
            None => None,
        }
    }

    /// What a lookup sees: the active table over the frozen one.
    pub open spec fn view(&self) -> Map<Seq<u8>, Seq<u8>> {
        match self.frozen_view() {
            Some(f) => f.union_prefer_right(self.active_view()),
            None => self.active_view(),
        }
    }

    /// Sum of the key and value lengths in the active table.
    pub closed spec fn spec_active_size(&self) -> nat {
        self.active_size as nat
    }

    /// Id of the active log.
    pub closed spec fn spec_active_log_id(&self) -> u64 {
        self.active_log_id
    }

    /// Id of the frozen table's log.
    pub closed spec fn spec_freeze_log_id(&self) -> Option<u64> {
        self.freeze_log_id
    }

    /// Threshold above which the active table is frozen.
    pub closed spec fn spec_switch_size(&self) -> usize {
        self.switch_active_size
    }

    /// The tables are sorted, the size is that of the active table, and a
    /// frozen table comes with its log id.
    pub open spec fn wf(&self) -> bool {
        &&& strictly_sorted(self.active_pairs())
        &&& self.spec_active_size() == pairs_size(self.active_pairs())
        &&& self.frozen_pairs() is Some == self.spec_freeze_log_id() is Some
        &&& (self.frozen_pairs() matches Some(p) ==> strictly_sorted(p))
    }

    /// The active table goes frozen on the next switch attempt.
    pub open spec fn switch_due(&self) -> bool {
        &&& self.spec_active_size() > self.spec_switch_size()
        &&& self.frozen_view() is None
        &&& self.spec_active_log_id() < u64::MAX
    }

    /// Recovers the memtable from its logs, given as ids and contents in
    /// ascending id order. The newest log becomes the active table, up to its
    /// first bad record; the one before it the frozen table; the rest are
    /// stale. With no log the active log id is 1.
    pub fn new(logs: Vec<(u64, Vec<u8>)>, switch_mem_size: usize) -> (r: Recovery)
        requires
            ids_ascending(logs@),
        ensures
            r.memtable.wf(),
            r.memtable.spec_switch_size() == switch_mem_size,
            logs.len() == 0 ==> {
                &&& r.memtable.spec_active_log_id() == 1
                &&& r.memtable.active_view() == Map::<Seq<u8>, Seq<u8>>::empty()
                &&& r.memtable.spec_active_size() == 0
                &&& r.truncate_at == 0
            },
            logs.len() >= 1 ==> {
                let newest = logs@[logs.len() - 1];
                &&& r.memtable.spec_active_log_id() == newest.0
                &&& r.memtable.active_view() == to_map(replay(newest.1@).0)
                &&& r.memtable.spec_active_size() == pairs_size(r.memtable.active_pairs())
                &&& r.truncate_at as int == replay(newest.1@).1
            },
            logs.len() <= 1 ==> r.memtable.frozen_view() is None && r.frozen is None,
            logs.len() >= 2 ==> {
                let second = logs@[logs.len() - 2];
                &&& r.memtable.frozen_view() == Some(to_map(replay(second.1@).0))
                &&& r.memtable.spec_freeze_log_id() == Some(second.0)
                &&& r.frozen matches Some(raw) && raw.wf() && raw@ == to_map(replay(second.1@).0)
            },
            r.stale_logs@ == logs@.subrange(0, if logs.len() >= 2 { logs.len() - 2 } else { 0 }).map_values(
                |l: (u64, Vec<u8>)| l.0,
            ),
    {
        let n = logs.len();
        let mut stale_logs: Vec<u64> = Vec::new();
        let stale_count: usize = if n >= 2 { n - 2 } else { 0 };
        let mut i: usize = 0;
        while i < stale_count
            invariant
                0 <= i <= stale_count,
                stale_count <= n,
                n == logs.len(),
                stale_logs@ == logs@.subrange(0, i as int).map_values(|l: (u64, Vec<u8>)| l.0),
            decreases stale_count - i,
        {
            stale_logs.push(logs[i].0);
            assert(logs@.subrange(0, i + 1).map_values(|l: (u64, Vec<u8>)| l.0)
                == logs@.subrange(0, i as int).map_values(|l: (u64, Vec<u8>)| l.0).push(logs@[i as int].0));
            i = i + 1;
        }
        let mut frozen: Option<Table> = None;
        let mut freeze_log_id: Option<u64> = None;
        let mut raw: Option<RawSegment> = None;
        if n >= 2 {
            let (tree, _, _) = replay_log(logs[n - 2].1.as_slice());
            raw = Some(RawSegment::from(tree.copy()));
            frozen = Some(tree);
            freeze_log_id = Some(logs[n - 2].0);
        }
        let mut active = Table::new();
        let mut active_size: usize = 0;
        let mut active_log_id: u64 = 1;
        let mut truncate_at: usize = 0;
        if n >= 1 {
            let (tree, next_pos, size) = replay_log(logs[n - 1].1.as_slice());
            active = tree;
            active_size = size;
            truncate_at = next_pos;
            active_log_id = logs[n - 1].0;
        }
        let memtable = Memtable {
            active,
            frozen,
            active_size,
            active_log_id,
            freeze_log_id,
            switch_active_size: switch_mem_size,
        };
        Recovery { memtable, frozen: raw, truncate_at, stale_logs }
    }

    /// Looks `key` up in the active table, then in the frozen one.
    pub fn get(&self, key: &[u8]) -> (r: Option<Vec<u8>>)
        requires
            self.wf(),
        ensures
            opt_view(r) == map_get(self.view(), key@),
    {
        match self.active.get(key) {
            Some(v) => Some(copy_bytes(v.as_slice())),
            None => match &self.frozen {
                Some(t) => match t.get(key) {
                    Some(v) => Some(copy_bytes(v.as_slice())),
                    None => None,
                },
                None => None,
            },
        }
    }

    /// Inserts or overwrites `key` in the active table, once its log record
    /// is written.
    pub fn set(&mut self, key: Vec<u8>, value: Vec<u8>)
        requires
            old(self).wf(),
            old(self).spec_active_size() + key@.len() + value@.len() <= usize::MAX,
        ensures
            final(self).wf(),
            final(self).view() == old(self).view().insert(key@, value@),
            final(self).active_view() == old(self).active_view().insert(key@, value@),
            final(self).frozen_view() == old(self).frozen_view(),
            final(self).spec_active_log_id() == old(self).spec_active_log_id(),
            final(self).spec_freeze_log_id() == old(self).spec_freeze_log_id(),
            final(self).spec_switch_size() == old(self).spec_switch_size(),
            final(self).spec_active_size() == old(self).spec_active_size() + value@.len() - (
            match map_get(old(self).active_view(), key@) {
                Some(v) => v.len() as int,
                None => -(key@.len() as int),
            }),
    {
        let key_len = key.len();
        let value_len = value.len();
        let ghost k = key@;
        let ghost v = value@;
        match self.active.insert(key, value) {
            Some(old) => {
                self.active_size = self.active_size + value_len - old.len();
            },
            None => {
                self.active_size = self.active_size + key_len + value_len;
            },
        }
        proof {
            if let Some(f) = old(self).frozen_view() {
                assert(self.view() =~= old(self).view().insert(k, v));
            }
        }
    }

    /// Whether the next switch attempt freezes the active table: it is over
    /// the threshold, no frozen table waits, and the next log id exists.
    pub fn should_switch(&self) -> (r: bool)
        ensures
            r == self.switch_due(),
    {
        self.active_size > self.switch_active_size && self.frozen.is_none() && self.active_log_id < u64::MAX
    }

    /// Freezes the active table if a switch is due, the caller having
    /// created the log of id `active_log_id + 1`. The frozen table is
    /// returned to be written out.
    pub fn try_switch(&mut self) -> (r: Option<RawSegment>)
        requires
            old(self).wf(),
        ensures
            final(self).wf(),
            final(self).view() == old(self).view(),
            final(self).spec_switch_size() == old(self).spec_switch_size(),
            r is Some == old(self).switch_due(),
            !old(self).switch_due() ==> *final(self) == *old(self),
            old(self).switch_due() ==> {
                &&& final(self).frozen_view() == Some(old(self).active_view())
                &&& final(self).active_view() == Map::<Seq<u8>, Seq<u8>>::empty()
                &&& final(self).spec_active_size() == 0
                &&& final(self).spec_active_log_id() == old(self).spec_active_log_id() + 1
                &&& final(self).spec_freeze_log_id() == Some(old(self).spec_active_log_id())
                &&& r matches Some(raw) && raw.wf() && raw@ == old(self).active_view()
            },
    {
        if self.should_switch() {
            let mut tree = Table::new();
            std::mem::swap(&mut tree, &mut self.active);
            let raw = RawSegment::from(tree.copy());
            self.frozen = Some(tree);
            self.freeze_log_id = Some(self.active_log_id);
            self.active_log_id = self.active_log_id + 1;
            self.active_size = 0;
            proof {
                assert(self.view() =~= old(self).view());
            }
            Some(raw)
        } else {
            None
        }
    }

    /// Drops the frozen table once its segment is in place; returns the id
    /// of its log, which the caller removes.
    pub fn finalize_switch(&mut self) -> (r: Option<u64>)
        requires
            old(self).wf(),
        ensures
            final(self).wf(),
            r == old(self).spec_freeze_log_id(),
            final(self).frozen_view() is None,
            final(self).spec_freeze_log_id() is None,
            final(self).active_view() == old(self).active_view(),
            final(self).spec_active_size() == old(self).spec_active_size(),
            final(self).spec_active_log_id() == old(self).spec_active_log_id(),
            final(self).spec_switch_size() == old(self).spec_switch_size(),
    {
        self.frozen = None;
        self.freeze_log_id.take()
    }

    /// At shutdown, with no frozen table, moves the active table out to be
    /// written as a final segment.
    pub fn to_raw_segment(&mut self) -> (r: Option<RawSegment>)
        requires
            old(self).wf(),
        ensures
            final(self).wf(),
            r is Some == old(self).frozen_view() is None,
            old(self).frozen_view() is None ==> {
                &&& r matches Some(raw) && raw.wf() && raw@ == old(self).active_view()
                &&& final(self).active_view() == Map::<Seq<u8>, Seq<u8>>::empty()
                &&& final(self).spec_active_size() == 0
            },
            old(self).frozen_view() is Some ==> *final(self) == *old(self),
            final(self).spec_active_log_id() == old(self).spec_active_log_id(),
            final(self).frozen_view() == old(self).frozen_view(),
    {
        if self.frozen.is_none() {
            let mut tree = Table::new();
            std::mem::swap(&mut tree, &mut self.active);
            self.active_size = 0;
            Some(RawSegment::from(tree))
        } else {
            None
        }
    }

    /// A copy of the frozen table, to write it out again after a failed
    /// flush.
    pub fn frozen_segment(&self) -> (r: Option<RawSegment>)
        requires
            self.wf(),
        ensures
            r is Some == self.frozen_pairs() is Some,
            r matches Some(raw) ==> raw.wf() && Some(raw.pairs()) == self.frozen_pairs(),
    {
        match &self.frozen {
            Some(t) => Some(RawSegment::from(t.copy())),
            None => None,
        }
    }

    /// Whether the active table is empty, so that its log can be removed.
    pub fn active_is_empty(&self) -> (r: bool)
        requires
            self.wf(),
        ensures
            r == (self.active_view() == Map::<Seq<u8>, Seq<u8>>::empty()),
    {
        self.active.is_empty()
    }

    /// Id of the active log.
    pub fn active_log_id(&self) -> (r: u64)
        ensures
            r == self.spec_active_log_id(),
    {
        self.active_log_id
    }

    /// Sum of the key and value lengths in the active table.
    pub fn active_size(&self) -> (r: usize)
        ensures
            r == self.spec_active_size(),
    {
        self.active_size
    }

    /// Id of the frozen table's log.
    pub fn freeze_log_id(&self) -> (r: Option<u64>)
        ensures
            r == self.spec_freeze_log_id(),
    {
        self.freeze_log_id
    }
}

/// A log of writes: their records one after another.
pub open spec fn log_bytes(ops: Seq<Pair>) -> Seq<u8>
    decreases ops.len(),
{
    if ops.len() == 0 {
        Seq::empty()
    } else {
        log_bytes(ops.drop_last()) + log_line(ops.last().0, ops.last().1)
    }
}

proof fn lemma_log_bytes_concat(a: Seq<Pair>, c: Seq<Pair>)
    ensures
        log_bytes(a + c) == log_bytes(a) + log_bytes(c),
    decreases c.len(),
{
    if c.len() == 0 {
        assert(a + c == a);
        assert(log_bytes(a) + Seq::<u8>::empty() == log_bytes(a));
    } else {
        lemma_log_bytes_concat(a, c.drop_last());
        assert((a + c).drop_last() == a + c.drop_last());
        assert((a + c).last() == c.last());
    }
}

proof fn lemma_replay_keeps_prefix(b: Seq<u8>, p: int, acc: Seq<Pair>)
    ensures
        acc.len() <= replay_from(b, p, acc).0.len(),
        replay_from(b, p, acc).0.subrange(0, acc.len() as int) == acc,
    decreases b.len() - p,
{
    if 0 <= p < b.len() {
        match record_at(b, p) {
            None => {},
            Some((fs, q)) => match decode_log_fields(fs) {
                None => {},
                Some(kv) => if q <= p || q > b.len() {
                } else {
                    lemma_replay_keeps_prefix(b, q, acc.push(kv));
                    let r = replay_from(b, q, acc.push(kv)).0;
                    assert(r.subrange(0, acc.len() as int) == r.subrange(0, acc.len() + 1 as int).subrange(0, acc.len() as int));
                    assert(acc.push(kv).subrange(0, acc.len() as int) == acc);
                },
            },
        }
    }
    if !(0 <= p < b.len()) {
        assert(acc.subrange(0, acc.len() as int) == acc);
    } else if replay_from(b, p, acc).0 == acc {
        assert(acc.subrange(0, acc.len() as int) == acc);
    }
}

proof fn lemma_replay_from(ops: Seq<Pair>, tail: Seq<u8>, i: int)
    requires
        0 <= i <= ops.len(),
    ensures
        replay_from(log_bytes(ops) + tail, log_bytes(ops.subrange(0, i)).len() as int, ops.subrange(0, i)).0.subrange(0, ops.len() as int) == ops,
        ops.len() <= replay_from(log_bytes(ops) + tail, log_bytes(ops.subrange(0, i)).len() as int, ops.subrange(0, i)).0.len(),
        tail.len() == 0 ==> replay_from(log_bytes(ops) + tail, log_bytes(ops.subrange(0, i)).len() as int, ops.subrange(0, i))
            == (ops, log_bytes(ops).len() as int),
    decreases ops.len() - i,
{
    let b = log_bytes(ops) + tail;
    let p = log_bytes(ops.subrange(0, i)).len() as int;
    if i == ops.len() {
        assert(ops.subrange(0, i) == ops);
        lemma_replay_keeps_prefix(b, p, ops);
        if tail.len() == 0 {
            assert(b == log_bytes(ops));
        }
    } else {
        let pre = ops.subrange(0, i);
        let mid = ops.subrange(0, i + 1);
        let post = ops.subrange(i + 1, ops.len() as int);
        assert(mid.drop_last() == pre);
        assert(mid.last() == ops[i]);
        assert(ops == mid + post);
        lemma_log_bytes_concat(mid, post);
        let line = log_line(ops[i].0, ops[i].1);
        assert(b == log_bytes(pre) + line + (log_bytes(post) + tail));
        lemma_log_round_trip(ops[i].0, ops[i].1, log_bytes(pre), log_bytes(post) + tail);
        crate::framing::lemma_record_fields_len(b, p);
        assert(pre.push((ops[i].0, ops[i].1)) == mid);
        lemma_replay_from(ops, tail, i + 1);
    }
}

/// Durability: a log written as the records of a run of writes replays as
/// exactly those writes, to its end; and with any torn or foreign bytes after
/// the last whole record, every one of those writes is still replayed first.
pub proof fn lemma_log_replay(ops: Seq<Pair>, tail: Seq<u8>)
    ensures
        replay(log_bytes(ops)) == (ops, log_bytes(ops).len() as int),
        replay(log_bytes(ops) + tail).0.subrange(0, ops.len() as int) == ops,
{
    assert(ops.subrange(0, 0) == Seq::<Pair>::empty());
    assert(log_bytes(Seq::<Pair>::empty()).len() == 0);
    lemma_replay_from(ops, tail, 0);
    lemma_replay_from(ops, Seq::empty(), 0);
    assert(log_bytes(ops) + Seq::<u8>::empty() == log_bytes(ops));
}

} // verus!
