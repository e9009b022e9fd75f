//! The segment set and the read path of the store: the memtable over the
//! segments, a newer segment over an older one.

use vstd::prelude::*;
use crate::merge::{overlay, lemma_overlay_concat};
use crate::segment::{Segment, segment_lookup, lookup_start};
use crate::table::{Pair, map_get, opt_view, strictly_sorted, to_map};
use crate::segment::{build_index, lemma_index_soundness};
use crate::memtable::{segment_bytes, log_bytes, replay, lemma_log_replay};

verus! {

/// What the store holds: the segments, oldest first, under the memtable.
pub open spec fn store_view(segs: Seq<Map<Seq<u8>, Seq<u8>>>, mem: Map<Seq<u8>, Seq<u8>>) -> Map<Seq<u8>, Seq<u8>> {
    overlay(segs).union_prefer_right(mem)
}

/// A lookup over segments newest first: the first that answers wins.
pub open spec fn lookup_newest_first(
    indexes: Seq<Option<Seq<(Seq<u8>, int)>>>,
    files: Seq<Seq<u8>>,
    key: Seq<u8>,
) -> Option<Seq<u8>>
    decreases indexes.len(),
{
    if indexes.len() == 0 || files.len() != indexes.len() {
        None
    } else {
        match segment_lookup(indexes.last(), files.last(), key) {
            Some(v) => Some(v),
            None => lookup_newest_first(indexes.drop_last(), files.drop_last(), key),
        }
    }
}

/// The segment ids ascend strictly.
pub open spec fn ids_strictly_ascending(ids: Seq<u64>) -> bool {
    forall|i: int, j: int| 0 <= i < j < ids.len() ==> #[trigger] ids[i] < #[trigger] ids[j]
}

/// The live segments by ascending id, and the greatest id handed out.
pub struct SegmentSet {
    entries: Vec<(u64, Segment)>,
    max_id: u64,
}

impl SegmentSet {
    /// Ids of the live segments, ascending.
    pub closed spec fn ids(&self) -> Seq<u64> {
        self.entries@.map_values(|e: (u64, Segment)| e.0)
    }

    /// Indexes of the live segments, by ascending id.
    pub closed spec fn indexes(&self) -> Seq<Option<Seq<(Seq<u8>, int)>>> {
        self.entries@.map_values(|e: (u64, Segment)| e.1.spec_index())
    }

    /// The greatest id handed out or installed.
    pub closed spec fn spec_max_id(&self) -> u64 {
        self.max_id
    }

    /// Ids ascend strictly and none is above the greatest handed out.
    pub open spec fn wf(&self) -> bool {
        &&& ids_strictly_ascending(self.ids())
        &&& self.indexes().len() == self.ids().len()
        &&& forall|i: int| 0 <= i < self.ids().len() ==> #[trigger] self.ids()[i] <= self.spec_max_id()
    }

    /// An empty set whose next id is `max_id + 1`.
    pub fn new(max_id: u64) -> (r: SegmentSet)
        ensures
            r.wf(),
            r.ids() == Seq::<u64>::empty(),
            r.spec_max_id() == max_id,
    {
        let r = SegmentSet { entries: Vec::new(), max_id };
        assert(r.ids() == Seq::<u64>::empty());
        r
    }

    /// Number of live segments.
    pub fn len(&self) -> (r: usize)
        ensures
            r == self.ids().len(),
    {
        self.entries.len()
    }

    /// Ids of the live segments, ascending.
    pub fn id_list(&self) -> (r: Vec<u64>)
        ensures
            r@ == self.ids(),
    {
        let mut r: Vec<u64> = Vec::new();
        let mut i: usize = 0;
        while i < self.entries.len()
            invariant
                i <= self.entries@.len(),
                r@ == self.ids().subrange(0, i as int),
            decreases self.entries@.len() - i,
        {
            r.push(self.entries[i].0);
            assert(self.ids().subrange(0, i + 1) == self.ids().subrange(0, i as int).push(self.ids()[i as int]));
            i = i + 1;
        }
        assert(self.ids().subrange(0, i as int) == self.ids());
        r
    }

    /// Hands out a new id, above every id handed out before; `None` once the
    /// ids are used up.
    pub fn allocate_id(&mut self) -> (r: Option<u64>)
        requires
            old(self).wf(),
        ensures
            final(self).wf(),
            final(self).ids() == old(self).ids(),
            final(self).indexes() == old(self).indexes(),
            old(self).spec_max_id() < u64::MAX ==> {
                &&& r == Some((old(self).spec_max_id() + 1) as u64)
                &&& final(self).spec_max_id() == old(self).spec_max_id() + 1
            },
            old(self).spec_max_id() == u64::MAX ==> r is None && final(self).spec_max_id() == u64::MAX,
    {
        if self.max_id < u64::MAX {
            self.max_id = self.max_id + 1;
            Some(self.max_id)
        } else {
            None
        }
    }

    /// Installs a segment under an id that no live segment has, keeping the
    /// ids in order.
    pub fn install(&mut self, id: u64, segment: Segment)
        requires
            old(self).wf(),
            !old(self).ids().contains(id),
        ensures
            final(self).wf(),
            exists|p: int| 0 <= p <= old(self).ids().len()
                && final(self).ids() == old(self).ids().insert(p, id)
                && final(self).indexes() == old(self).indexes().insert(p, segment.spec_index()),
            final(self).spec_max_id() == if id > old(self).spec_max_id() { id } else { old(self).spec_max_id() },
    {
        let ghost ids0 = self.ids();
        let ghost ix0 = self.indexes();
        let ghost six = segment.spec_index();
        let mut p: usize = 0;
        while p < self.entries.len() && self.entries[p].0 < id
            invariant
                p <= self.entries@.len(),
                ids0 == self.ids(),
                forall|q: int| 0 <= q < p ==> #[trigger] ids0[q] < id,
            decreases self.entries@.len() - p,
        {
            p = p + 1;
        }
        self.entries.insert(p, (id, segment));
        if id > self.max_id {
            self.max_id = id;
        }
        proof {
            assert(self.ids() =~= ids0.insert(p as int, id));
            assert(self.indexes() =~= ix0.insert(p as int, six));
            let ids = self.ids();
            if p < ids0.len() {
                assert(ids0[p as int] != id) by {
                    assert(ids0.contains(ids0[p as int]));
                }
            }
            assert forall|a: int, b: int| 0 <= a < b < ids.len() implies #[trigger] ids[a] < #[trigger] ids[b] by {
                if b < p {
                } else if b == p {
                } else if a < p {
                    assert(ids0[a] < id);
                    assert(id <= ids0[p as int]);
                    if b - 1 > p {
                        assert(ids0[p as int] < ids0[b - 1]);
                    }
                } else if a == p {
                    assert(id <= ids0[p as int]);
                    if b - 1 > p {
                        assert(ids0[p as int] < ids0[b - 1]);
                    }
                } else {
                    assert(ids0[a - 1] < ids0[b - 1]);
                }
            }
            assert forall|i: int| 0 <= i < ids.len() implies #[trigger] ids[i] <= self.spec_max_id() by {
                if i < p {
                    assert(ids[i] == ids0[i]);
                } else if i > p {
                    assert(ids[i] == ids0[i - 1]);
                }
            }
        }
    }

    /// Removes the segment of id `id`, if it is live.
    pub fn remove(&mut self, id: u64) -> (r: Option<Segment>)
        requires
            old(self).wf(),
        ensures
            final(self).wf(),
            final(self).spec_max_id() == old(self).spec_max_id(),
            r is Some == old(self).ids().contains(id),
            !old(self).ids().contains(id) ==> final(self).ids() == old(self).ids()
                && final(self).indexes() == old(self).indexes(),
            old(self).ids().contains(id) ==> exists|p: int| 0 <= p < old(self).ids().len()
                && old(self).ids()[p] == id
                && final(self).ids() == old(self).ids().remove(p)
                && final(self).indexes() == old(self).indexes().remove(p),
    {
        let ghost ids0 = self.ids();
        let ghost ix0 = self.indexes();
        let mut p: usize = 0;
        while p < self.entries.len()
            invariant
                p <= self.entries@.len(),
                ids0 == self.ids(),
                ix0 == self.indexes(),
                ids0 == old(self).ids(),
                ix0 == old(self).indexes(),
                self.wf(),
                self.max_id == old(self).max_id,
                forall|q: int| 0 <= q < p ==> #[trigger] ids0[q] != id,
            decreases self.entries@.len() - p,
        {
            if self.entries[p].0 == id {
                assert(ids0[p as int] == id);
                let (_, seg) = self.entries.remove(p);
                proof {
                    assert(self.ids() =~= ids0.remove(p as int));
                    assert(self.indexes() =~= ix0.remove(p as int));
                    let ids = self.ids();
                    assert forall|a: int, b: int| 0 <= a < b < ids.len() implies #[trigger] ids[a] < #[trigger] ids[b] by {
                        if a >= p {
                            assert(ids0[a + 1] < ids0[b + 1]);
                        } else if b >= p {
                            assert(ids0[a] < ids0[b + 1]);
                        } else {
                            assert(ids0[a] < ids0[b]);
                        }
                    }
                    assert forall|i: int| 0 <= i < ids.len() implies #[trigger] ids[i] <= self.spec_max_id() by {
                        if i >= p {
                            assert(ids[i] == ids0[i + 1]);
                        } else {
                            assert(ids[i] == ids0[i]);
                        }
                    }
                    assert(ids0.contains(id));
                }
                return Some(seg);
            }
            p = p + 1;
        }
        proof {
            if ids0.contains(id) {
                let q = choose|q: int| 0 <= q < ids0.len() && ids0[q] == id;
                assert(ids0[q] != id);
            }
        }
        None
    }

    /// Offset from which a lookup of `key` scans the segment at position
    /// `pos`, by ascending id.
    pub fn start_offset_at(&self, pos: usize, key: &[u8]) -> (r: usize)
        requires
            pos < self.ids().len(),
        ensures
            r as int == lookup_start(self.indexes()[pos as int], key@),
    {
        assert(self.indexes()[pos as int] == self.entries@[pos as int].1.spec_index());
        self.entries[pos].1.start_offset(key)
    }

    /// Looks `key` up in the segments newest first; `files` holds their
    /// files' bytes by ascending id.
    pub fn get(&self, files: &Vec<Vec<u8>>, key: &[u8]) -> (r: Option<Vec<u8>>)
        requires
            files.len() == self.ids().len(),
        ensures
            opt_view(r) == lookup_newest_first(
                self.indexes(),
                files@.map_values(|f: Vec<u8>| f@),
                key@,
            ),
    {
        let ghost fv = files@.map_values(|f: Vec<u8>| f@);
        let mut i: usize = self.entries.len();
        assert(self.indexes().subrange(0, i as int) == self.indexes());
        assert(fv.subrange(0, i as int) == fv);
        while i > 0
            invariant
                i <= self.entries@.len(),
                files.len() == self.entries@.len(),
                fv == files@.map_values(|f: Vec<u8>| f@),
                lookup_newest_first(self.indexes(), fv, key@)
                    == lookup_newest_first(self.indexes().subrange(0, i as int), fv.subrange(0, i as int), key@),
            decreases i,
        {
            let ghost ixs = self.indexes().subrange(0, i as int);
            let ghost fs = fv.subrange(0, i as int);
            assert(ixs.last() == self.entries@[i - 1].1.spec_index());
            assert(fs.last() == files@[i - 1]@);
            assert(ixs.drop_last() == self.indexes().subrange(0, i - 1));
            assert(fs.drop_last() == fv.subrange(0, i - 1));
            match self.entries[i - 1].1.get(files[i - 1].as_slice(), key) {
                Some(v) => {
                    return Some(v);
                },
                None => {},
            }
            i = i - 1;
        }
        None
    }
}

/// The writes, oldest first, applied to a map.
pub open spec fn apply_writes(m: Map<Seq<u8>, Seq<u8>>, ops: Seq<Pair>) -> Map<Seq<u8>, Seq<u8>>
    decreases ops.len(),
{
    if ops.len() == 0 {
        m
    } else {
        apply_writes(m, ops.drop_last()).insert(ops.last().0, ops.last().1)
    }
}

/// The value of the last write of `k` among the writes, if any.
pub open spec fn last_write(ops: Seq<Pair>, k: Seq<u8>) -> Option<Seq<u8>>
    decreases ops.len(),
{
    if ops.len() == 0 {
        None
    } else if ops.last().0 == k {
        Some(ops.last().1)
    } else {
        last_write(ops.drop_last(), k)
    }
}

/// Last writer wins: after a run of writes into the memtable, a lookup of a
/// key returns the value of its last write, or what the store held before
/// if the run did not write it. Read-your-writes is the case of a run that
/// ends with a write of the key.
pub proof fn lemma_last_writer_wins(
    segs: Seq<Map<Seq<u8>, Seq<u8>>>,
    mem: Map<Seq<u8>, Seq<u8>>,
    ops: Seq<Pair>,
    k: Seq<u8>,
)
    ensures
        map_get(store_view(segs, apply_writes(mem, ops)), k) == match last_write(ops, k) {
            Some(v) => Some(v),
            None => map_get(store_view(segs, mem), k),
        },
        ops.len() > 0 && ops.last().0 == k ==> map_get(store_view(segs, apply_writes(mem, ops)), k)
            == Some(ops.last().1),
    decreases ops.len(),
{
    if ops.len() > 0 {
        lemma_last_writer_wins(segs, mem, ops.drop_last(), k);
    }
}

/// A flush changes nothing that a lookup sees: the store with a frozen table
/// in the memtable holds what it holds with that table as its newest segment.
/// So a crash before or after the segment is in place reads the same.
pub proof fn lemma_flush_equivalence(
    segs: Seq<Map<Seq<u8>, Seq<u8>>>,
    frozen: Map<Seq<u8>, Seq<u8>>,
    active: Map<Seq<u8>, Seq<u8>>,
)
    ensures
        store_view(segs, frozen.union_prefer_right(active)) == store_view(segs.push(frozen), active),
{
    assert(segs.push(frozen).drop_last() == segs);
    assert(overlay(segs).union_prefer_right(frozen.union_prefer_right(active))
        =~= overlay(segs).union_prefer_right(frozen).union_prefer_right(active));
}

/// Compaction changes nothing that a lookup sees: replacing a run of the
/// oldest segments by one that holds their overlay keeps the store's map,
/// whatever newer segments and memtable stand above it.
pub proof fn lemma_compaction_equivalence(
    segs: Seq<Map<Seq<u8>, Seq<u8>>>,
    merged: Map<Seq<u8>, Seq<u8>>,
    newer: Seq<Map<Seq<u8>, Seq<u8>>>,
    mem: Map<Seq<u8>, Seq<u8>>,
)
    requires
        merged == overlay(segs),
    ensures
        store_view(seq![merged] + newer, mem) == store_view(segs + newer, mem),
{
    lemma_overlay_concat(seq![merged], newer);
    lemma_overlay_concat(segs, newer);
    assert(seq![merged].drop_last() == Seq::<Map<Seq<u8>, Seq<u8>>>::empty());
    assert(overlay(Seq::<Map<Seq<u8>, Seq<u8>>>::empty()).union_prefer_right(merged) =~= merged);
}

/// Over segment files written from sorted tables, each looked up with an
/// index built over it or with none, the newest-first lookup finds what the
/// overlay of the tables holds.
pub proof fn lemma_lookup_newest_first(
    tables: Seq<Seq<Pair>>,
    indexes: Seq<Option<Seq<(Seq<u8>, int)>>>,
    block_sizes: Seq<int>,
    key: Seq<u8>,
)
    requires
        indexes.len() == tables.len(),
        block_sizes.len() == tables.len(),
        forall|i: int| 0 <= i < tables.len() ==> strictly_sorted(#[trigger] tables[i]),
        forall|i: int| 0 <= i < tables.len() ==> (#[trigger] indexes[i] is None
            || indexes[i] == Some(build_index(segment_bytes(tables[i]), block_sizes[i]))),
    ensures
        lookup_newest_first(indexes, tables.map_values(|t: Seq<Pair>| segment_bytes(t)), key)
            == map_get(overlay(tables.map_values(|t: Seq<Pair>| to_map(t))), key),
    decreases tables.len(),
{
    let files = tables.map_values(|t: Seq<Pair>| segment_bytes(t));
    let maps = tables.map_values(|t: Seq<Pair>| to_map(t));
    if tables.len() > 0 {
        let n = tables.len() - 1;
        let t = tables.drop_last();
        lemma_lookup_newest_first(t, indexes.drop_last(), block_sizes.drop_last(), key);
        assert(files.drop_last() == t.map_values(|t: Seq<Pair>| segment_bytes(t)));
        assert(maps.drop_last() == t.map_values(|t: Seq<Pair>| to_map(t)));
        assert(strictly_sorted(tables[n]));
        lemma_index_soundness(tables[n], block_sizes[n], key);
        assert(indexes.last() == indexes[n]);
        assert(files.last() == segment_bytes(tables[n]));
        assert(maps.last() == to_map(tables[n]));
    }
}

proof fn lemma_to_map_last_write(ops: Seq<Pair>, k: Seq<u8>)
    ensures
        map_get(to_map(ops), k) == last_write(ops, k),
    decreases ops.len(),
{
    if ops.len() > 0 {
        lemma_to_map_last_write(ops.drop_last(), k);
    }
}

/// Durability: the active table recovered from a log of acknowledged writes
/// answers each key with its last write, or with nothing if it was never
/// written.
pub proof fn lemma_recovery_reads_last_writes(ops: Seq<Pair>, k: Seq<u8>)
    ensures
        map_get(to_map(replay(log_bytes(ops)).0), k) == last_write(ops, k),
{
    lemma_log_replay(ops, Seq::empty());
    lemma_to_map_last_write(ops, k);
}

/// Whether a compaction cycle runs on this tick: the merge period has
/// passed since the last one and at least two segments are live.
pub fn should_merge(elapsed_millis: u64, merge_period_millis: u64, live_segments: usize) -> (r: bool)
    ensures
        r == (elapsed_millis >= merge_period_millis && live_segments >= 2),
{
    elapsed_millis >= merge_period_millis && live_segments >= 2
}

/// The read path: the memtable first, then the segment files newest first,
/// finds what the store holds, for segments written from sorted tables (as
/// `RawSegment::to_bytes` and `compact` write them) with or without an index.
pub proof fn lemma_read_path(
    tables: Seq<Seq<Pair>>,
    indexes: Seq<Option<Seq<(Seq<u8>, int)>>>,
    block_sizes: Seq<int>,
    mem: Map<Seq<u8>, Seq<u8>>,
    key: Seq<u8>,
)
    requires
        indexes.len() == tables.len(),
        block_sizes.len() == tables.len(),
        forall|i: int| 0 <= i < tables.len() ==> strictly_sorted(#[trigger] tables[i]),
        forall|i: int| 0 <= i < tables.len() ==> (#[trigger] indexes[i] is None
            || indexes[i] == Some(build_index(segment_bytes(tables[i]), block_sizes[i]))),
    ensures
        match map_get(mem, key) {
            Some(v) => Some(v),
            None => lookup_newest_first(indexes, tables.map_values(|t: Seq<Pair>| segment_bytes(t)), key),
        } == map_get(store_view(tables.map_values(|t: Seq<Pair>| to_map(t)), mem), key),
{
    lemma_lookup_newest_first(tables, indexes, block_sizes, key);
}

} // verus!
