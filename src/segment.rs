//! Segments: immutable files of key-value records in ascending key order,
//! each with a sparse index from the first key of a block to its offset.

use vstd::prelude::*;
use std::cmp::Ordering;
use crate::framing::{read_record, record_at, record_view, views};
use crate::keys::{compare_keys, copy_bytes, lex_lt, lex_le};
use crate::table::{opt_view, Pair, pairs_of, strictly_sorted, to_map, map_get, lemma_sorted_to_map};
use crate::codec::{segment_line, segment_fields, lemma_segment_round_trip};
use crate::memtable::segment_bytes;

verus! {

/// Index entries of the records from `p` on, after `acc`: a record whose
/// offset lies at least `bs` bytes past `last`, the offset of the previous
/// entry, gets an entry of its first field and its offset.
pub open spec fn index_from(b: Seq<u8>, p: int, last: int, bs: int, acc: Seq<(Seq<u8>, int)>) -> Seq<(Seq<u8>, int)>
    decreases b.len() - p,
{
    if p < 0 || p >= b.len() {
        acc
    } else {
        match record_at(b, p) {
            None => acc,
            Some((fs, q)) => if q <= p || q > b.len() {
                acc
            } else if p - last >= bs {
                index_from(b, q, p, bs, acc.push((fs[0], p)))
            } else {
                index_from(b, q, last, bs, acc)
            },
        }
    }
}

/// The sparse index of a segment file for a block size.
pub open spec fn build_index(b: Seq<u8>, bs: int) -> Seq<(Seq<u8>, int)> {
    index_from(b, 0, 0, bs, Seq::empty())
}

/// Where a lookup of `key` starts: the offset of the last entry whose key is
/// not above `key`, or zero.
pub open spec fn start_offset(index: Seq<(Seq<u8>, int)>, key: Seq<u8>) -> int
    decreases index.len(),
{
    if index.len() == 0 {
        0
    } else if lex_le(index.last().0, key) {
        index.last().1
    } else {
        start_offset(index.drop_last(), key)
    }
}

/// Scans the records from `p` for `key`: the value of the first record with
/// that key; `None` at the end, on a malformed record, or at a greater key.
/// A record of fewer than two fields is passed over.
pub open spec fn scan_from(b: Seq<u8>, p: int, key: Seq<u8>) -> Option<Seq<u8>>
    decreases b.len() - p,
{
    if p < 0 || p >= b.len() {
        None
    } else {
        match record_at(b, p) {
            None => None,
            Some((fs, q)) => if q <= p || q > b.len() {
                None
            } else if fs.len() >= 2 && fs[0] == key {
                Some(fs[1])
            } else if fs.len() >= 2 && lex_lt(key, fs[0]) {
                None
            } else {
                scan_from(b, q, key)
            },
        }
    }
}

/// A point lookup in a segment file, from the index's start offset, or from
/// the start of the file without an index.
pub open spec fn segment_lookup(index: Option<Seq<(Seq<u8>, int)>>, b: Seq<u8>, key: Seq<u8>) -> Option<Seq<u8>> {
    match index {
        Some(ix) => scan_from(b, start_offset(ix, key), key),
        None => scan_from(b, 0, key),
    }
}

/// The pairs of the records from `p` on, after `acc`, up to the end or the
/// first malformed record; a record of fewer than two fields is passed over.
pub open spec fn pairs_from(b: Seq<u8>, p: int, acc: Seq<Pair>) -> Seq<Pair>
    decreases b.len() - p,
{
    if p < 0 || p >= b.len() {
        acc
    } else {
        match record_at(b, p) {
            None => acc,
            Some((fs, q)) => if q <= p || q > b.len() {
                acc
            } else if fs.len() >= 2 {
                pairs_from(b, q, acc.push((fs[0], fs[1])))
            } else {
                pairs_from(b, q, acc)
            },
        }
    }
}

/// The pairs of a segment file, in file order.
pub open spec fn segment_pairs(b: Seq<u8>) -> Seq<Pair> {
    pairs_from(b, 0, Seq::empty())
}

/// Reads all the pairs of a segment file.
pub fn read_segment(data: &[u8]) -> (r: Vec<(Vec<u8>, Vec<u8>)>)
    ensures
        pairs_of(r@) == segment_pairs(data@),
{
    let mut out: Vec<(Vec<u8>, Vec<u8>)> = Vec::new();
    let mut pos: usize = 0;
    assert(pairs_of(out@) == Seq::<Pair>::empty());
    loop
        invariant
            segment_pairs(data@) == pairs_from(data@, pos as int, pairs_of(out@)),
        ensures
            segment_pairs(data@) == pairs_of(out@),
        decreases data.len() - pos,
    {
        if pos >= data.len() {
            break;
        }
        match read_record(data, pos) {
            None => {
                break;
            },
            Some((fields, next)) => {
                if fields.len() >= 2 {
                    let ghost before = out@;
                    let k = copy_bytes(fields[0].as_slice());
                    let v = copy_bytes(fields[1].as_slice());
                    out.push((k, v));
                    assert(views(fields@)[0] == fields@[0]@);
                    assert(views(fields@)[1] == fields@[1]@);
                    assert(pairs_of(out@) == pairs_of(before).push((views(fields@)[0], views(fields@)[1])));
                }
                pos = next;
            },
        }
    }
    out
}

/// Where a lookup of `key` starts: the index's start offset, or zero
/// without an index.
pub open spec fn lookup_start(index: Option<Seq<(Seq<u8>, int)>>, key: Seq<u8>) -> int {
    match index {
        Some(ix) => start_offset(ix, key),
        None => 0,
    }
}

/// The spec value of an index.
pub open spec fn index_view(v: Seq<(Vec<u8>, usize)>) -> Seq<(Seq<u8>, int)> {
    v.map_values(|e: (Vec<u8>, usize)| (e.0@, e.1 as int))
}

/// A segment: its sparse index, once built. The file itself is read by the
/// caller and handed to the lookups.
pub struct Segment {
    index: Option<Vec<(Vec<u8>, usize)>>,
}

impl Segment {
    /// The index, if built.
    pub closed spec fn spec_index(&self) -> Option<Seq<(Seq<u8>, int)>> {
        match self.index {
            Some(v) => Some(index_view(v@)),
            None => None,
        }
    }

    /// A segment without an index.
    pub fn new() -> (r: Segment)
        ensures
            r.spec_index() is None,
    {
        Segment { index: None }
    }

    /// Number of index entries, zero without an index.
    pub fn index_len(&self) -> (r: usize)
        ensures
            r == match self.spec_index() {
                Some(ix) => ix.len(),
                None => 0,
            },
    {
        match &self.index {
            Some(v) => v.len(),
            None => 0,
        }
    }

    /// Builds the sparse index from the segment file's bytes.
    pub fn initialize_index(&mut self, data: &[u8], block_size: u64)
        ensures
            final(self).spec_index() == Some(build_index(data@, block_size as int)),
    {
        let mut index: Vec<(Vec<u8>, usize)> = Vec::new();
        let mut last: usize = 0;
        let mut pos: usize = 0;
        let ghost b = data@;
        let ghost bs = block_size as int;
        assert(index_view(index@) == Seq::<(Seq<u8>, int)>::empty());
        loop
            invariant
                b == data@,
                bs == block_size as int,
                pos <= data.len(),
                last <= pos,
                build_index(b, bs) == index_from(b, pos as int, last as int, bs, index_view(index@)),
            ensures
                build_index(b, bs) == index_view(index@),
            decreases data.len() - pos,
        {
            if pos >= data.len() {
                break;
            }
            match read_record(data, pos) {
                None => {
                    break;
                },
                Some((fields, next)) => {
                    if (pos - last) as u64 >= block_size {
                        let ghost before = index@;
                        index.push((copy_bytes(fields[0].as_slice()), pos));
                        assert(views(fields@)[0] == fields@[0]@);
                        assert(index_view(index@) == index_view(before).push((views(fields@)[0], pos as int)));
                        last = pos;
                    }
                    pos = next;
                },
            }
        }
        self.index = Some(index);
    }

    /// Offset from which a lookup of `key` scans the segment file.
    pub fn start_offset(&self, key: &[u8]) -> (r: usize)
        ensures
            r as int == lookup_start(self.spec_index(), key@),
    {
        match &self.index {
            Some(ix) => index_start(ix, key),
            None => 0,
        }
    }

    /// Looks `key` up in the segment file `data`, from the index's start
    /// offset for it.
    pub fn get(&self, data: &[u8], key: &[u8]) -> (r: Option<Vec<u8>>)
        ensures
            opt_view(r) == segment_lookup(self.spec_index(), data@, key@),
    {
        let start: usize = match &self.index {
            Some(ix) => index_start(ix, key),
            None => 0,
        };
        scan(data, start, key)
    }
}

fn index_start(ix: &Vec<(Vec<u8>, usize)>, key: &[u8]) -> (r: usize)
    ensures
        r as int == start_offset(index_view(ix@), key@),
{
    let mut i: usize = ix.len();
    assert(index_view(ix@).subrange(0, i as int) == index_view(ix@));
    while i > 0
        invariant
            i <= ix.len(),
            start_offset(index_view(ix@), key@) == start_offset(index_view(ix@).subrange(0, i as int), key@),
        decreases i,
    {
        let ghost sub = index_view(ix@).subrange(0, i as int);
        assert(sub.drop_last() == index_view(ix@).subrange(0, i - 1));
        assert(sub.last() == (ix@[i - 1].0@, ix@[i - 1].1 as int));
        match compare_keys(ix[i - 1].0.as_slice(), key) {
            Ordering::Greater => {
                proof {
                    crate::keys::lemma_lex_order();
                }
                i = i - 1;
            },
            _ => {
                return ix[i - 1].1;
            },
        }
    }
    0
}

/// Scans the records of `data` from `pos` for `key`.
pub fn scan(data: &[u8], pos: usize, key: &[u8]) -> (r: Option<Vec<u8>>)
    ensures
        opt_view(r) == scan_from(data@, pos as int, key@),
{
    let mut p: usize = pos;
    loop
        invariant
            scan_from(data@, pos as int, key@) == scan_from(data@, p as int, key@),
        decreases data.len() - p,
    {
        if p >= data.len() {
            return None;
        }
        match read_record(data, p) {
            None => {
                return None;
            },
            Some((fields, next)) => {
                assert(views(fields@).len() == fields.len());
                if fields.len() >= 2 {
                    assert(views(fields@)[0] == fields@[0]@);
                    assert(views(fields@)[1] == fields@[1]@);
                    match compare_keys(fields[0].as_slice(), key) {
                        Ordering::Equal => {
                            return Some(copy_bytes(fields[1].as_slice()));
                        },
                        Ordering::Greater => {
                            return None;
                        },
                        Ordering::Less => {},
                    }
                }
                p = next;
            },
        }
    }
}

/// Offset of the `i`-th record in the segment file of `s`.
pub open spec fn record_offset(s: Seq<Pair>, i: int) -> int {
    segment_bytes(s.subrange(0, i)).len() as int
}

proof fn lemma_segment_bytes_concat(a: Seq<Pair>, c: Seq<Pair>)
    ensures
        segment_bytes(a + c) == segment_bytes(a) + segment_bytes(c),
    decreases c.len(),
{
    if c.len() == 0 {
        assert(a + c == a);
        assert(segment_bytes(a) + Seq::<u8>::empty() == segment_bytes(a));
    } else {
        lemma_segment_bytes_concat(a, c.drop_last());
        assert((a + c).drop_last() == a + c.drop_last());
        assert((a + c).last() == c.last());
    }
}

/// The `i`-th record of the segment file of `s` reads back as its pair, and
/// the next one starts at the next offset.
proof fn lemma_record_at_offset(s: Seq<Pair>, i: int)
    requires
        0 <= i < s.len(),
    ensures
        record_at(segment_bytes(s), record_offset(s, i))
            == Some((segment_fields(s[i].0, s[i].1), record_offset(s, i + 1))),
        record_offset(s, i) < record_offset(s, i + 1) <= segment_bytes(s).len(),
{
    let pre = s.subrange(0, i);
    let mid = s.subrange(0, i + 1);
    let post = s.subrange(i + 1, s.len() as int);
    assert(mid.drop_last() == pre);
    assert(mid.last() == s[i]);
    assert(s == mid + post);
    lemma_segment_bytes_concat(mid, post);
    let line = segment_line(s[i].0, s[i].1);
    assert(segment_bytes(s) == segment_bytes(pre) + line + segment_bytes(post));
    lemma_segment_round_trip(s[i].0, s[i].1, segment_bytes(pre), segment_bytes(post));
    crate::framing::lemma_record_fields_len(segment_bytes(s), record_offset(s, i));
}

proof fn lemma_end_offset(s: Seq<Pair>)
    ensures
        record_offset(s, s.len() as int) == segment_bytes(s).len(),
        record_offset(s, 0) == 0,
{
    assert(s.subrange(0, s.len() as int) == s);
    assert(s.subrange(0, 0) == Seq::<Pair>::empty());
}

/// Scanning from the `j`-th record, where no earlier record has `key`, finds
/// what the table holds at `key`.
proof fn lemma_scan_sorted(s: Seq<Pair>, j: int, key: Seq<u8>)
    requires
        strictly_sorted(s),
        0 <= j <= s.len(),
        forall|i: int| 0 <= i < j ==> #[trigger] s[i].0 != key,
    ensures
        scan_from(segment_bytes(s), record_offset(s, j), key) == map_get(to_map(s), key),
    decreases s.len() - j,
{
    lemma_sorted_to_map(s);
    crate::keys::lemma_lex_order();
    let b = segment_bytes(s);
    if j == s.len() {
        lemma_end_offset(s);
        assert(!to_map(s).contains_key(key));
    } else {
        lemma_record_at_offset(s, j);
        let fs = segment_fields(s[j].0, s[j].1);
        assert(fs[0] == s[j].0 && fs[1] == s[j].1 && fs.len() == 2);
        if s[j].0 == key {
        } else if lex_lt(key, s[j].0) {
            assert forall|i: int| 0 <= i < s.len() implies s[i].0 != key by {
                if i > j {
                    assert(lex_lt(s[j].0, s[i].0));
                }
            }
            assert(!to_map(s).contains_key(key));
        } else {
            lemma_scan_sorted(s, j + 1, key);
        }
    }
}

/// Each entry of an index built over the records from the `i`-th on names a
/// record's key and offset.
proof fn lemma_index_from(s: Seq<Pair>, i: int, last: int, bs: int, acc: Seq<(Seq<u8>, int)>)
    requires
        0 <= i <= s.len(),
        forall|e: int| 0 <= e < acc.len() ==> exists|j: int| 0 <= j < s.len()
            && #[trigger] acc[e] == (s[j].0, record_offset(s, j)),
    ensures
        forall|e: int| 0 <= e < index_from(segment_bytes(s), record_offset(s, i), last, bs, acc).len()
            ==> exists|j: int| 0 <= j < s.len()
            && #[trigger] index_from(segment_bytes(s), record_offset(s, i), last, bs, acc)[e] == (s[j].0, record_offset(s, j)),
    decreases s.len() - i,
{
    let b = segment_bytes(s);
    if i == s.len() {
        lemma_end_offset(s);
        assert(index_from(b, record_offset(s, i), last, bs, acc) == acc);
    } else {
        lemma_record_at_offset(s, i);
        let p = record_offset(s, i);
        let fs = segment_fields(s[i].0, s[i].1);
        assert(fs[0] == s[i].0);
        if p - last >= bs {
            let acc2 = acc.push((fs[0], p));
            assert forall|e: int| 0 <= e < acc2.len() implies exists|j: int| 0 <= j < s.len()
                && #[trigger] acc2[e] == (s[j].0, record_offset(s, j)) by {
                if e < acc.len() {
                    assert(acc2[e] == acc[e]);
                } else {
                    assert(acc2[e] == (s[i].0, record_offset(s, i)));
                }
            }
            lemma_index_from(s, i + 1, p, bs, acc2);
            assert(index_from(b, p, last, bs, acc) == index_from(b, record_offset(s, i + 1), p, bs, acc2));
        } else {
            lemma_index_from(s, i + 1, last, bs, acc);
            assert(index_from(b, p, last, bs, acc) == index_from(b, record_offset(s, i + 1), last, bs, acc));
        }
    }
}

proof fn lemma_start_offset(ix: Seq<(Seq<u8>, int)>, key: Seq<u8>)
    ensures
        start_offset(ix, key) == 0 || exists|e: int| 0 <= e < ix.len() && lex_le(ix[e].0, key)
            && #[trigger] ix[e].1 == start_offset(ix, key),
    decreases ix.len(),
{
    if ix.len() > 0 {
        lemma_start_offset(ix.drop_last(), key);
        if !lex_le(ix.last().0, key) && start_offset(ix, key) != 0 {
            let e = choose|e: int| 0 <= e < ix.drop_last().len() && lex_le(ix.drop_last()[e].0, key)
                && #[trigger] ix.drop_last()[e].1 == start_offset(ix.drop_last(), key);
            assert(ix[e] == ix.drop_last()[e]);
        } else if start_offset(ix, key) != 0 {
            assert(ix[ix.len() - 1] == ix.last());
        }
    }
}

/// Index soundness: in the segment file written from a sorted table, a
/// lookup finds exactly what the table holds at the key, whether it starts
/// from an index built over the file, for any block size, or from the start.
pub proof fn lemma_index_soundness(s: Seq<Pair>, bs: int, key: Seq<u8>)
    requires
        strictly_sorted(s),
    ensures
        segment_lookup(Some(build_index(segment_bytes(s), bs)), segment_bytes(s), key) == map_get(to_map(s), key),
        segment_lookup(None, segment_bytes(s), key) == map_get(to_map(s), key),
{
    crate::keys::lemma_lex_order();
    lemma_end_offset(s);
    lemma_scan_sorted(s, 0, key);
    let b = segment_bytes(s);
    let ix = build_index(b, bs);
    lemma_index_from(s, 0, 0, bs, Seq::empty());
    lemma_start_offset(ix, key);
    let st = start_offset(ix, key);
    if st != 0 {
        let e = choose|e: int| 0 <= e < ix.len() && lex_le(ix[e].0, key) && #[trigger] ix[e].1 == st;
        let j = choose|j: int| 0 <= j < s.len() && #[trigger] ix[e] == (s[j].0, record_offset(s, j));
        assert forall|i: int| 0 <= i < j implies #[trigger] s[i].0 != key by {
            assert(lex_lt(s[i].0, s[j].0));
        }
        lemma_scan_sorted(s, j, key);
    }
}

proof fn lemma_pairs_from(s: Seq<Pair>, i: int)
    requires
        0 <= i <= s.len(),
    ensures
        pairs_from(segment_bytes(s), record_offset(s, i), s.subrange(0, i)) == s,
    decreases s.len() - i,
{
    if i == s.len() {
        lemma_end_offset(s);
        assert(s.subrange(0, i) == s);
    } else {
        lemma_record_at_offset(s, i);
        assert(s.subrange(0, i).push((s[i].0, s[i].1)) == s.subrange(0, i + 1));
        lemma_pairs_from(s, i + 1);
    }
}

/// A segment file written from pairs reads back as those pairs.
pub proof fn lemma_segment_file_round_trip(s: Seq<Pair>)
    ensures
        segment_pairs(segment_bytes(s)) == s,
{
    lemma_end_offset(s);
    assert(s.subrange(0, 0) == Seq::<Pair>::empty());
    lemma_pairs_from(s, 0);
}

proof fn lemma_index_from_count(b: Seq<u8>, p: int, last: int, bs: int, acc: Seq<(Seq<u8>, int)>)
    requires
        bs > 0,
        0 <= last <= p,
        last <= b.len(),
        acc.len() * bs <= last,
    ensures
        index_from(b, p, last, bs, acc).len() * bs <= b.len(),
    decreases b.len() - p,
{
    if 0 <= p < b.len() {
        match record_at(b, p) {
            None => {},
            Some((fs, q)) => if q <= p || q > b.len() {
            } else if p - last >= bs {
                let n = acc.len() as int;
                assert((n + 1) * bs == n * bs + bs) by (nonlinear_arith);
                assert(acc.push((fs[0], p)).len() == n + 1);
                lemma_index_from_count(b, q, p, bs, acc.push((fs[0], p)));
            } else {
                lemma_index_from_count(b, q, last, bs, acc);
            },
        }
    }
}

/// The sparse index has at most one entry per block: its entries times the
/// block size do not exceed the file's length.
pub proof fn lemma_index_size(b: Seq<u8>, bs: int)
    requires
        bs > 0,
    ensures
        build_index(b, bs).len() * bs <= b.len(),
{
    lemma_index_from_count(b, 0, 0, bs, Seq::empty());
}

proof fn lemma_shift_scan(b: Seq<u8>, s: int, p: int, key: Seq<u8>)
    requires
        0 <= s <= p <= b.len(),
    ensures
        scan_from(b.subrange(s, b.len() as int), p - s, key) == scan_from(b, p, key),
    decreases b.len() - p,
{
    if p < b.len() {
        crate::framing::lemma_shift_record(b, s, p);
        match record_at(b, p) {
            None => {},
            Some((fs, q)) => {
                if p < q <= b.len() {
                    lemma_shift_scan(b, s, q, key);
                }
            },
        }
    }
}

/// A lookup may read the segment file from its start offset on: scanning
/// those bytes from their start finds what the lookup over the whole file
/// finds.
pub proof fn lemma_lookup_from_offset(index: Option<Seq<(Seq<u8>, int)>>, b: Seq<u8>, key: Seq<u8>)
    requires
        0 <= lookup_start(index, key) <= b.len(),
    ensures
        scan_from(b.subrange(lookup_start(index, key), b.len() as int), 0, key) == segment_lookup(index, b, key),
{
    let st = lookup_start(index, key);
    lemma_shift_scan(b, st, st, key);
}

} // verus!
