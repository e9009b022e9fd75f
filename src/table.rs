//! A sorted table of key-value pairs, the in-memory form of a memtable or a
//! segment.

use vstd::prelude::*;
use std::cmp::Ordering;
use crate::keys::{compare_keys, copy_bytes, lex_lt, lemma_lex_order};

verus! {

/// A key-value pair as a spec value.
pub type Pair = (Seq<u8>, Seq<u8>);

/// The pairs of a vector of byte-string pairs.
pub open spec fn pairs_of(v: Seq<(Vec<u8>, Vec<u8>)>) -> Seq<Pair> {
    v.map_values(|e: (Vec<u8>, Vec<u8>)| (e.0@, e.1@))
}

/// The keys strictly ascend.
pub open spec fn strictly_sorted(s: Seq<Pair>) -> bool {
    forall|i: int, j: int| 0 <= i < j < s.len() ==> lex_lt(#[trigger] s[i].0, #[trigger] s[j].0)
}

/// The map that a sequence of pairs writes, a later pair overriding an
/// earlier one of the same key.
pub open spec fn to_map(s: Seq<Pair>) -> Map<Seq<u8>, Seq<u8>>
    decreases s.len(),
{
    if s.len() == 0 {
        Map::empty()
    } else {
        to_map(s.drop_last()).insert(s.last().0, s.last().1)
    }
}

/// What a map holds at `k`.
pub open spec fn map_get(m: Map<Seq<u8>, Seq<u8>>, k: Seq<u8>) -> Option<Seq<u8>> {
    if m.contains_key(k) {
        Some(m[k])
    } else {
        None
    }
}

/// The spec value of an optional byte vector.
pub open spec fn opt_view(o: Option<Vec<u8>>) -> Option<Seq<u8>> {
    match o {
        Some(v) => Some(v@),
        None => None,
    }
}

/// Sum of the key and value lengths of the pairs.
pub open spec fn pairs_size(s: Seq<Pair>) -> nat
    decreases s.len(),
{
    if s.len() == 0 {
        0
    } else {
        pairs_size(s.drop_last()) + s.last().0.len() + s.last().1.len()
    }
}

/// `to_map` holds exactly the keys of the pairs, each with the value of its
/// last pair.
pub proof fn lemma_to_map(s: Seq<Pair>)
    ensures
        forall|k: Seq<u8>|
            #[trigger] to_map(s).contains_key(k) <==> exists|i: int| 0 <= i < s.len() && s[i].0 == k,
        forall|i: int|
            0 <= i < s.len() && (forall|j: int| i < j < s.len() ==> s[j].0 != s[i].0)
                ==> #[trigger] to_map(s)[s[i].0] == s[i].1,
    decreases s.len(),
{
    if s.len() > 0 {
        let t = s.drop_last();
        lemma_to_map(t);
        assert(to_map(s) == to_map(t).insert(s.last().0, s.last().1));
        assert forall|k: Seq<u8>|
            #[trigger] to_map(s).contains_key(k) <==> exists|i: int| 0 <= i < s.len() && s[i].0 == k by {
            if to_map(s).contains_key(k) && k != s.last().0 {
                let i = choose|i: int| 0 <= i < t.len() && t[i].0 == k;
                assert(s[i].0 == k);
            }
            if exists|i: int| 0 <= i < s.len() && s[i].0 == k {
                let i = choose|i: int| 0 <= i < s.len() && s[i].0 == k;
                if i < t.len() {
                    assert(t[i].0 == k);
                }
            }
        }
        assert forall|i: int|
            0 <= i < s.len() && (forall|j: int| i < j < s.len() ==> s[j].0 != s[i].0)
                implies #[trigger] to_map(s)[s[i].0] == s[i].1 by {
            if i < t.len() {
                assert(s[s.len() - 1].0 != s[i].0);
                assert forall|j: int| i < j < t.len() implies t[j].0 != t[i].0 by {
                    assert(s[j].0 != s[i].0);
                }
            }
        }
    }
}

/// In a strictly sorted sequence each key is unique, so `to_map` gives each
/// pair's value.
pub proof fn lemma_sorted_to_map(s: Seq<Pair>)
    requires
        strictly_sorted(s),
    ensures
        forall|k: Seq<u8>|
            #[trigger] to_map(s).contains_key(k) <==> exists|i: int| 0 <= i < s.len() && s[i].0 == k,
        forall|i: int| 0 <= i < s.len() ==> #[trigger] to_map(s)[s[i].0] == s[i].1,
{
    lemma_to_map(s);
    lemma_lex_order();
    assert forall|i: int| 0 <= i < s.len() implies #[trigger] to_map(s)[s[i].0] == s[i].1 by {
        assert forall|j: int| i < j < s.len() implies s[j].0 != s[i].0 by {
            assert(lex_lt(s[i].0, s[j].0));
        }
    }
}

proof fn lemma_pairs_size_concat(a: Seq<Pair>, b: Seq<Pair>)
    ensures
        pairs_size(a + b) == pairs_size(a) + pairs_size(b),
    decreases b.len(),
{
    if b.len() > 0 {
        lemma_pairs_size_concat(a, b.drop_last());
        assert((a + b).drop_last() == a + b.drop_last());
    } else {
        assert(a + b == a);
    }
}

proof fn lemma_pairs_size_single(e: Pair)
    ensures
        pairs_size(seq![e]) == e.0.len() + e.1.len(),
{
    assert(seq![e].drop_last() == Seq::<Pair>::empty());
    assert(seq![e].last() == e);
    assert(pairs_size(Seq::<Pair>::empty()) == 0);
}

/// A sorted table of unique byte-string keys.
pub struct Table {
    entries: Vec<(Vec<u8>, Vec<u8>)>,
}

impl Table {
    /// The pairs in ascending key order.
    pub closed spec fn pairs(&self) -> Seq<Pair> {
        pairs_of(self.entries@)
    }

    /// The map that the table holds.
    pub open spec fn view(&self) -> Map<Seq<u8>, Seq<u8>> {
        to_map(self.pairs())
    }

    /// The keys ascend strictly.
    pub open spec fn wf(&self) -> bool {
        strictly_sorted(self.pairs())
    }

    /// Sum of the key and value lengths of the entries.
    pub open spec fn size(&self) -> nat {
        pairs_size(self.pairs())
    }

    /// An empty table.
    pub fn new() -> (r: Table)
        ensures
            r.wf(),
            r.pairs() == Seq::<Pair>::empty(),
            r@ == Map::<Seq<u8>, Seq<u8>>::empty(),
            r.size() == 0,
    {
        let r = Table { entries: Vec::new() };
        assert(r.pairs() == Seq::<Pair>::empty());
        r
    }

    /// A table of pairs whose keys ascend strictly.
    pub fn from_sorted(entries: Vec<(Vec<u8>, Vec<u8>)>) -> (r: Table)
        requires
            strictly_sorted(pairs_of(entries@)),
        ensures
            r.wf(),
            r.pairs() == pairs_of(entries@),
    {
        Table { entries }
    }

    /// The entries in ascending key order.
    pub fn entries(&self) -> (r: &Vec<(Vec<u8>, Vec<u8>)>)
        ensures
            pairs_of(r@) == self.pairs(),
    {
        &self.entries
    }

    /// A copy of the table.
    pub fn copy(&self) -> (r: Table)
        ensures
            r.pairs() == self.pairs(),
    {
        let mut out: Vec<(Vec<u8>, Vec<u8>)> = Vec::with_capacity(self.entries.len());
        let mut i: usize = 0;
        while i < self.entries.len()
            invariant
                0 <= i <= self.entries@.len(),
                pairs_of(out@) == self.pairs().subrange(0, i as int),
            decreases self.entries@.len() - i,
        {
            let k = copy_bytes(self.entries[i].0.as_slice());
            let v = copy_bytes(self.entries[i].1.as_slice());
            let ghost before = out@;
            out.push((k, v));
            assert(out@ == before.push((k, v)));
            assert(self.pairs()[i as int] == (self.entries@[i as int].0@, self.entries@[i as int].1@));
            assert(pairs_of(out@) =~= pairs_of(before).push((k@, v@)));
            assert(pairs_of(out@) =~= self.pairs().subrange(0, i + 1));
            i = i + 1;
        }
        assert(self.pairs().subrange(0, i as int) == self.pairs());
        Table { entries: out }
    }

    /// Number of entries.
    pub fn len(&self) -> (r: usize)
        ensures
            r == self.pairs().len(),
    {
        self.entries.len()
    }

    /// Whether the table holds no entry.
    pub fn is_empty(&self) -> (r: bool)
        requires
            self.wf(),
        ensures
            r == (self@ == Map::<Seq<u8>, Seq<u8>>::empty()),
            r == (self.pairs().len() == 0),
    {
        proof {
            lemma_sorted_to_map(self.pairs());
            if self.pairs().len() > 0 {
                assert(self@.contains_key(self.pairs()[0].0));
            } else {
                assert(self@ == Map::<Seq<u8>, Seq<u8>>::empty());
            }
        }
        self.entries.len() == 0
    }

    /// Binary search: `Ok(i)` where entry `i` has the key, else `Err(i)` where
    /// the key would be inserted.
    pub fn search(&self, key: &[u8]) -> (r: Result<usize, usize>)
        requires
            self.wf(),
        ensures
            match r {
                Ok(i) => i < self.pairs().len() && self.pairs()[i as int].0 == key@,
                Err(i) => i <= self.pairs().len()
                    && (forall|j: int| 0 <= j < i ==> lex_lt(#[trigger] self.pairs()[j].0, key@))
                    && (forall|j: int| i <= j < self.pairs().len() ==> lex_lt(key@, #[trigger] self.pairs()[j].0)),
            },
    {
        proof {
            lemma_lex_order();
        }
        let ghost s = self.pairs();
        let mut lo: usize = 0;
        let mut hi: usize = self.entries.len();
        while lo < hi
            invariant
                s == self.pairs(),
                self.wf(),
                s.len() == self.entries@.len(),
                0 <= lo <= hi <= s.len(),
                forall|j: int| 0 <= j < lo ==> lex_lt(#[trigger] s[j].0, key@),
                forall|j: int| hi <= j < s.len() ==> lex_lt(key@, #[trigger] s[j].0),
            decreases hi - lo,
        {
            let mid = lo + (hi - lo) / 2;
            let ghost m = mid as int;
            proof {
                lemma_lex_order();
            }
            assert(s[m].0 == self.entries@[m].0@);
            match compare_keys(self.entries[mid].0.as_slice(), key) {
                Ordering::Equal => {
                    return Ok(mid);
                },
                Ordering::Less => {
                    assert forall|j: int| 0 <= j < mid + 1 implies lex_lt(#[trigger] s[j].0, key@) by {
                        if j < m {
                            assert(lex_lt(s[j].0, s[m].0));
                        }
                    }
                    lo = mid + 1;
                },
                Ordering::Greater => {
                    assert forall|j: int| mid <= j < s.len() implies lex_lt(key@, #[trigger] s[j].0) by {
                        if j > m {
                            assert(lex_lt(s[m].0, s[j].0));
                        }
                    }
                    hi = mid;
                },
            }
        }
        Err(lo)
    }

    /// The value stored under `key`.
    pub fn get(&self, key: &[u8]) -> (r: Option<&Vec<u8>>)
        requires
            self.wf(),
        ensures
            match r {
                Some(v) => self@.contains_key(key@) && self@[key@] == v@,
                None => !self@.contains_key(key@),
            },
    {
        proof {
            lemma_sorted_to_map(self.pairs());
            lemma_lex_order();
        }
        match self.search(key) {
            Ok(i) => Some(&self.entries[i].1),
            Err(i) => {
                assert forall|j: int| 0 <= j < self.pairs().len() implies self.pairs()[j].0 != key@ by {
                    if j < i {
                        assert(lex_lt(self.pairs()[j].0, key@));
                    } else {
                        assert(lex_lt(key@, self.pairs()[j].0));
                    }
                }
                None
            },
        }
    }

    /// Inserts or overwrites `key`, returning the value it replaced.
    pub fn insert(&mut self, key: Vec<u8>, value: Vec<u8>) -> (r: Option<Vec<u8>>)
        requires
            old(self).wf(),
        ensures
            final(self).wf(),
            final(self)@ == old(self)@.insert(key@, value@),
            opt_view(r) == map_get(old(self)@, key@),
            match r {
                Some(v) => final(self).size() + v@.len() == old(self).size() + value@.len(),
                None => final(self).size() == old(self).size() + key@.len() + value@.len(),
            },
    {
        proof {
            lemma_sorted_to_map(self.pairs());
            lemma_lex_order();
        }
        let ghost s = self.pairs();
        match self.search(key.as_slice()) {
            Ok(i) => {
                let ghost e = s[i as int];
                let mut v = value;
                std::mem::swap(&mut v, &mut self.entries[i].1);
                let ghost t = self.pairs();
                assert(t == s.update(i as int, (key@, value@)));
                proof {
                    lemma_sorted_to_map(t);
                    assert(self.wf());
                    assert(to_map(t) =~= to_map(s).insert(key@, value@)) by {
                        assert forall|k: Seq<u8>| #[trigger] to_map(t).contains_key(k) <==> to_map(s).insert(key@, value@).contains_key(k) by {
                            if to_map(s).contains_key(k) {
                                let j = choose|j: int| 0 <= j < s.len() && s[j].0 == k;
                                assert(t[j].0 == k);
                            }
                            if to_map(t).contains_key(k) {
                                let j = choose|j: int| 0 <= j < t.len() && t[j].0 == k;
                                assert(s[j].0 == k);
                            }
                            if k == key@ {
                                assert(t[i as int].0 == k);
                            }
                        }
                        assert forall|k: Seq<u8>| #[trigger] to_map(t).contains_key(k) implies to_map(t)[k] == to_map(s).insert(key@, value@)[k] by {
                            let j = choose|j: int| 0 <= j < t.len() && t[j].0 == k;
                            assert(to_map(t)[t[j].0] == t[j].1);
                            if j != i {
                                assert(to_map(s)[s[j].0] == s[j].1);
                            }
                        }
                    }
                    let pre = s.subrange(0, i as int);
                    let post = s.subrange(i + 1, s.len() as int);
                    assert(s == pre + seq![e] + post);
                    assert(t == pre + seq![(key@, value@)] + post);
                    lemma_pairs_size_concat(pre + seq![e], post);
                    lemma_pairs_size_concat(pre, seq![e]);
                    lemma_pairs_size_concat(pre + seq![(key@, value@)], post);
                    lemma_pairs_size_concat(pre, seq![(key@, value@)]);
                    lemma_pairs_size_single(e);
                    lemma_pairs_size_single((key@, value@));
                    assert(to_map(s)[s[i as int].0] == s[i as int].1);
                }
                Some(v)
            },
            Err(i) => {
                let ghost e = (key@, value@);
                self.entries.insert(i, (key, value));
                let ghost t = self.pairs();
                assert(t == s.insert(i as int, e));
                proof {
                    assert forall|a: int, b: int| 0 <= a < b < t.len() implies lex_lt(#[trigger] t[a].0, #[trigger] t[b].0) by {
                        if b < i {
                        } else if b == i {
                        } else if a < i {
                            assert(lex_lt(s[a].0, e.0));
                        } else if a == i {
                        } else {
                            assert(lex_lt(s[a - 1].0, s[b - 1].0));
                        }
                    }
                    assert(self.wf());
                    lemma_sorted_to_map(t);
                    assert forall|j: int| 0 <= j < s.len() implies s[j].0 != key@ by {
                        if j < i {
                            assert(lex_lt(s[j].0, key@));
                        } else {
                            assert(lex_lt(key@, s[j].0));
                        }
                    }
                    assert(to_map(t) =~= to_map(s).insert(key@, value@)) by {
                        assert forall|k: Seq<u8>| #[trigger] to_map(t).contains_key(k) <==> to_map(s).insert(key@, value@).contains_key(k) by {
                            if to_map(s).contains_key(k) {
                                let j = choose|j: int| 0 <= j < s.len() && s[j].0 == k;
                                if j < i {
                                    assert(t[j].0 == k);
                                } else {
                                    assert(t[j + 1].0 == k);
                                }
                            }
                            if to_map(t).contains_key(k) && k != key@ {
                                let j = choose|j: int| 0 <= j < t.len() && t[j].0 == k;
                                if j < i {
                                    assert(s[j].0 == k);
                                } else {
                                    assert(s[j - 1].0 == k);
                                }
                            }
                            if k == key@ {
                                assert(t[i as int].0 == k);
                            }
                        }
                        assert forall|k: Seq<u8>| #[trigger] to_map(t).contains_key(k) implies to_map(t)[k] == to_map(s).insert(key@, value@)[k] by {
                            let j = choose|j: int| 0 <= j < t.len() && t[j].0 == k;
                            assert(to_map(t)[t[j].0] == t[j].1);
                            if j < i {
                                assert(to_map(s)[s[j].0] == s[j].1);
                            } else if j > i {
                                assert(to_map(s)[s[j - 1].0] == s[j - 1].1);
                            }
                        }
                    }
                    let pre = s.subrange(0, i as int);
                    let post = s.subrange(i as int, s.len() as int);
                    assert(s == pre + post);
                    assert(t == pre + seq![e] + post);
                    lemma_pairs_size_concat(pre, post);
                    lemma_pairs_size_concat(pre + seq![e], post);
                    lemma_pairs_size_concat(pre, seq![e]);
                    lemma_pairs_size_single(e);
                }
                None
            },
        }
    }
}

} // verus!
