//! Compaction: merging segments into one, the newest value of each key
//! winning.

use vstd::prelude::*;
use std::cmp::Ordering;
use crate::keys::{compare_keys, copy_bytes, lex_lt, lex_le, lemma_lex_order};
use crate::table::{Pair, pairs_of, strictly_sorted, to_map, lemma_to_map};
use crate::segment::{segment_pairs, read_segment, lemma_segment_file_round_trip};
use crate::memtable::{segment_bytes, RawSegment};
use crate::table::Table;

verus! {

/// The map that segments hold together, given oldest first: a newer
/// segment's value of a key masks an older one's.
pub open spec fn overlay(segs: Seq<Map<Seq<u8>, Seq<u8>>>) -> Map<Seq<u8>, Seq<u8>>
    decreases segs.len(),
{
    if segs.len() == 0 {
        Map::empty()
    } else {
        overlay(segs.drop_last()).union_prefer_right(segs.last())
    }
}

/// The maps of segments given as pair vectors.
pub open spec fn segment_maps(inputs: Seq<Vec<(Vec<u8>, Vec<u8>)>>) -> Seq<Map<Seq<u8>, Seq<u8>>> {
    inputs.map_values(|v: Vec<(Vec<u8>, Vec<u8>)>| to_map(pairs_of(v@)))
}

fn copy_pair(e: &(Vec<u8>, Vec<u8>)) -> (r: (Vec<u8>, Vec<u8>))
    ensures
        r.0@ == e.0@,
        r.1@ == e.1@,
{
    (copy_bytes(e.0.as_slice()), copy_bytes(e.1.as_slice()))
}

/// The pair runs of segments given as pair vectors.
pub open spec fn runs_of(inputs: Seq<Vec<(Vec<u8>, Vec<u8>)>>) -> Seq<Seq<Pair>> {
    inputs.map_values(|v: Vec<(Vec<u8>, Vec<u8>)>| pairs_of(v@))
}

/// The maps of what each cursor has passed.
pub open spec fn consumed(runs: Seq<Seq<Pair>>, c: Seq<usize>) -> Seq<Map<Seq<u8>, Seq<u8>>> {
    Seq::new(runs.len(), |j: int| to_map(runs[j].subrange(0, c[j] as int)))
}

/// Sum of the first `n` cursors.
pub open spec fn cursor_sum(c: Seq<usize>, n: int) -> int
    decreases n,
{
    if n <= 0 {
        0
    } else {
        cursor_sum(c, n - 1) + c[n - 1]
    }
}

/// Sum of the lengths of the first `n` runs.
pub open spec fn runs_total(runs: Seq<Seq<Pair>>, n: int) -> int
    decreases n,
{
    if n <= 0 {
        0
    } else {
        runs_total(runs, n - 1) + runs[n - 1].len()
    }
}

proof fn lemma_cursor_sum_bounded(runs: Seq<Seq<Pair>>, c: Seq<usize>, n: int)
    requires
        0 <= n <= c.len(),
        c.len() == runs.len(),
        forall|j: int| 0 <= j < c.len() ==> #[trigger] c[j] <= runs[j].len(),
    ensures
        cursor_sum(c, n) <= runs_total(runs, n),
    decreases n,
{
    if n > 0 {
        lemma_cursor_sum_bounded(runs, c, n - 1);
    }
}

proof fn lemma_cursor_sum_grows(c0: Seq<usize>, c1: Seq<usize>, n: int, b: int)
    requires
        0 <= n <= c0.len(),
        c0.len() == c1.len(),
        forall|j: int| 0 <= j < c0.len() ==> #[trigger] c0[j] <= c1[j],
    ensures
        cursor_sum(c0, n) <= cursor_sum(c1, n),
        0 <= b < n && c0[b] < c1[b] ==> cursor_sum(c0, n) < cursor_sum(c1, n),
    decreases n,
{
    if n > 0 {
        lemma_cursor_sum_grows(c0, c1, n - 1, b);
        assert(c0[n - 1] <= c1[n - 1]);
    }
}

/// A key is in an overlay iff some map holds it, and the overlay gives the
/// value of the last map that holds it.
pub proof fn lemma_overlay(maps: Seq<Map<Seq<u8>, Seq<u8>>>)
    ensures
        forall|k: Seq<u8>| #[trigger] overlay(maps).contains_key(k)
            <==> exists|j: int| 0 <= j < maps.len() && #[trigger] maps[j].contains_key(k),
        forall|j: int, k: Seq<u8>|
            0 <= j < maps.len() && #[trigger] maps[j].contains_key(k)
                && (forall|i: int| j < i < maps.len() ==> !(#[trigger] maps[i].contains_key(k)))
                ==> overlay(maps)[k] == maps[j][k],
    decreases maps.len(),
{
    if maps.len() > 0 {
        let t = maps.drop_last();
        lemma_overlay(t);
        assert forall|k: Seq<u8>| #[trigger] overlay(maps).contains_key(k)
            <==> exists|j: int| 0 <= j < maps.len() && #[trigger] maps[j].contains_key(k) by {
            if overlay(t).contains_key(k) {
                let j = choose|j: int| 0 <= j < t.len() && #[trigger] t[j].contains_key(k);
                assert(maps[j] == t[j]);
            }
            if exists|j: int| 0 <= j < maps.len() && #[trigger] maps[j].contains_key(k) {
                let j = choose|j: int| 0 <= j < maps.len() && #[trigger] maps[j].contains_key(k);
                if j < t.len() {
                    assert(t[j] == maps[j]);
                }
            }
        }
        assert forall|j: int, k: Seq<u8>|
            0 <= j < maps.len() && #[trigger] maps[j].contains_key(k)
                && (forall|i: int| j < i < maps.len() ==> !(#[trigger] maps[i].contains_key(k)))
                implies overlay(maps)[k] == maps[j][k] by {
            if j < t.len() {
                assert(!maps[maps.len() - 1].contains_key(k));
                assert(t[j] == maps[j]);
                assert forall|i: int| j < i < t.len() implies !(#[trigger] t[i].contains_key(k)) by {
                    assert(t[i] == maps[i]);
                }
            }
        }
    }
}

/// Two maps agree on every key but `k`.
pub open spec fn agree_off(a: Map<Seq<u8>, Seq<u8>>, b: Map<Seq<u8>, Seq<u8>>, k: Seq<u8>) -> bool {
    forall|key: Seq<u8>| key != k ==> (#[trigger] a.contains_key(key) == b.contains_key(key)
        && (a.contains_key(key) ==> a[key] == b[key]))
}

proof fn lemma_overlay_agree(m0: Seq<Map<Seq<u8>, Seq<u8>>>, m1: Seq<Map<Seq<u8>, Seq<u8>>>, k: Seq<u8>)
    requires
        m0.len() == m1.len(),
        forall|i: int| 0 <= i < m0.len() ==> agree_off(#[trigger] m0[i], m1[i], k),
    ensures
        agree_off(overlay(m0), overlay(m1), k),
    decreases m0.len(),
{
    if m0.len() > 0 {
        let n = m0.len() - 1;
        lemma_overlay_agree(m0.drop_last(), m1.drop_last(), k);
        assert(agree_off(m0[n], m1[n], k));
    }
}

/// Overlaying maps after the key `k` went into some of them, none of which
/// held it, the last being `b`, gives the overlay with `k` at `b`'s value.
proof fn lemma_overlay_step(
    m0: Seq<Map<Seq<u8>, Seq<u8>>>,
    m1: Seq<Map<Seq<u8>, Seq<u8>>>,
    k: Seq<u8>,
    v: Seq<u8>,
    b: int,
)
    requires
        m0.len() == m1.len(),
        0 <= b < m0.len(),
        forall|i: int| 0 <= i < m0.len() ==> !(#[trigger] m0[i]).contains_key(k),
        forall|i: int| 0 <= i < m0.len() ==> agree_off(#[trigger] m0[i], m1[i], k),
        m1[b] == m0[b].insert(k, v),
        forall|i: int| b < i < m0.len() ==> #[trigger] m1[i] == m0[i],
    ensures
        overlay(m1) == overlay(m0).insert(k, v),
    decreases m0.len(),
{
    let n = m0.len() - 1;
    let t0 = m0.drop_last();
    let t1 = m1.drop_last();
    if n > b {
        assert forall|i: int| 0 <= i < t0.len() implies !(#[trigger] t0[i]).contains_key(k) by {
            assert(t0[i] == m0[i]);
        }
        assert forall|i: int| 0 <= i < t0.len() implies agree_off(#[trigger] t0[i], t1[i], k) by {
            assert(t0[i] == m0[i] && t1[i] == m1[i]);
        }
        assert forall|i: int| b < i < t0.len() implies #[trigger] t1[i] == t0[i] by {
            assert(t0[i] == m0[i] && t1[i] == m1[i]);
        }
        lemma_overlay_step(t0, t1, k, v, b);
        assert(m1[n] == m0[n]);
        assert(!m0[n].contains_key(k));
        assert(overlay(m1) =~= overlay(m0).insert(k, v));
    } else {
        assert forall|i: int| 0 <= i < t0.len() implies agree_off(#[trigger] t0[i], t1[i], k) by {
            assert(t0[i] == m0[i] && t1[i] == m1[i]);
        }
        lemma_overlay_agree(t0, t1, k);
        assert(overlay(m1) =~= overlay(m0).insert(k, v));
    }
}

/// One step of the merge keeps its invariant: the smallest head key, with
/// the newest run's value, goes out, and every run holding it moves past it.
proof fn lemma_merge_step(
    runs: Seq<Seq<Pair>>,
    c0: Seq<usize>,
    c1: Seq<usize>,
    o0: Seq<Pair>,
    b: int,
    kv: Pair,
)
    requires
        c0.len() == runs.len(),
        c1.len() == runs.len(),
        forall|i: int| 0 <= i < runs.len() ==> strictly_sorted(#[trigger] runs[i]),
        forall|i: int| 0 <= i < runs.len() ==> #[trigger] c0[i] <= runs[i].len(),
        0 <= b < runs.len(),
        c0[b] < runs[b].len(),
        kv == runs[b][c0[b] as int],
        forall|i: int| 0 <= i < runs.len() && c0[i] < runs[i].len()
            ==> !lex_lt(#[trigger] runs[i][c0[i] as int].0, kv.0),
        forall|i: int| b < i < runs.len() && c0[i] < runs[i].len()
            ==> lex_lt(kv.0, #[trigger] runs[i][c0[i] as int].0),
        forall|i: int| 0 <= i < runs.len() ==> #[trigger] c1[i] as int == if c0[i] < runs[i].len() && runs[i][c0[i] as int].0 == kv.0 {
            c0[i] + 1
        } else {
            c0[i] as int
        },
        strictly_sorted(o0),
        forall|x: int, i: int| 0 <= x < o0.len() && 0 <= i < runs.len() && c0[i] < runs[i].len()
            ==> lex_lt(#[trigger] o0[x].0, #[trigger] runs[i][c0[i] as int].0),
        to_map(o0) == overlay(consumed(runs, c0)),
    ensures
        strictly_sorted(o0.push(kv)),
        forall|x: int, i: int| 0 <= x < o0.len() + 1 && 0 <= i < runs.len() && c1[i] < runs[i].len()
            ==> lex_lt(#[trigger] o0.push(kv)[x].0, #[trigger] runs[i][c1[i] as int].0),
        to_map(o0.push(kv)) == overlay(consumed(runs, c1)),
        forall|i: int| 0 <= i < runs.len() ==> #[trigger] c1[i] <= runs[i].len(),
        cursor_sum(c0, runs.len() as int) < cursor_sum(c1, runs.len() as int),
{
    let m = runs.len();
    let k = kv.0;
    let o1 = o0.push(kv);
    let m0 = consumed(runs, c0);
    let m1 = consumed(runs, c1);
    lemma_lex_order();
    assert(c1[b] != c0[b]);
    assert forall|i: int| b < i < m implies #[trigger] c1[i] == c0[i] by {
        if c0[i] < runs[i].len() && runs[i][c0[i] as int].0 == k {
            assert(lex_lt(runs[b][c0[b] as int].0, runs[i][c0[i] as int].0));
        }
    }
    assert forall|i: int| 0 <= i < m implies !(#[trigger] m0[i]).contains_key(k) by {
        if m0[i].contains_key(k) {
            lemma_overlay(m0);
            assert(overlay(m0).contains_key(k));
            lemma_to_map(o0);
            let x = choose|x: int| 0 <= x < o0.len() && o0[x].0 == k;
            assert(lex_lt(o0[x].0, runs[b][c0[b] as int].0));
        }
    }
    assert forall|i: int| 0 <= i < m implies agree_off(#[trigger] m0[i], m1[i], k) by {
        if c1[i] != c0[i] {
            let s1 = runs[i].subrange(0, c1[i] as int);
            assert(s1.drop_last() == runs[i].subrange(0, c0[i] as int));
            assert(s1.last() == runs[i][c0[i] as int]);
            assert(m1[i] == m0[i].insert(k, runs[i][c0[i] as int].1));
        }
    }
    assert(m1[b] == m0[b].insert(k, kv.1)) by {
        let s1 = runs[b].subrange(0, c1[b] as int);
        assert(s1.drop_last() == runs[b].subrange(0, c0[b] as int));
        assert(s1.last() == runs[b][c0[b] as int]);
    }
    assert forall|i: int| b < i < m implies #[trigger] m1[i] == m0[i] by {
        assert(c1[i] == c0[i]);
    }
    lemma_overlay_step(m0, m1, k, kv.1, b);
    assert(o1.drop_last() == o0);
    assert forall|x: int, y: int| 0 <= x < y < o1.len() implies lex_lt(#[trigger] o1[x].0, #[trigger] o1[y].0) by {
        if y == o0.len() {
            assert(lex_lt(o0[x].0, runs[b][c0[b] as int].0));
        } else {
            assert(lex_lt(o0[x].0, o0[y].0));
        }
    }
    assert forall|x: int, i: int| 0 <= x < o1.len() && 0 <= i < m && c1[i] < runs[i].len()
        implies lex_lt(#[trigger] o1[x].0, #[trigger] runs[i][c1[i] as int].0) by {
        assert(strictly_sorted(runs[i]));
        if c1[i] != c0[i] {
            assert(lex_lt(runs[i][c0[i] as int].0, runs[i][c1[i] as int].0));
        } else if runs[i][c0[i] as int].0 != k {
            assert(!lex_lt(runs[i][c0[i] as int].0, k));
        }
        if x < o0.len() {
            assert(lex_lt(o0[x].0, runs[b][c0[b] as int].0));
        }
    }
    assert forall|i: int| 0 <= i < m implies #[trigger] c0[i] <= c1[i] by {}
    lemma_cursor_sum_grows(c0, c1, m as int, b);
}

/// Merges sorted runs given oldest first into one sorted run: it takes the
/// smallest key at the runs' heads, keeps the value of the newest run that
/// holds it, and moves every run holding it past it.
#[verifier::loop_isolation(false)]
pub fn merge_segments(inputs: &Vec<Vec<(Vec<u8>, Vec<u8>)>>) -> (r: Vec<(Vec<u8>, Vec<u8>)>)
    requires
        forall|i: int| 0 <= i < inputs.len() ==> strictly_sorted(#[trigger] pairs_of(inputs@[i]@)),
    ensures
        strictly_sorted(pairs_of(r@)),
        to_map(pairs_of(r@)) == overlay(segment_maps(inputs@)),
{
    let ghost runs = runs_of(inputs@);
    let m = inputs.len();
    let mut c: Vec<usize> = Vec::new();
    let mut z: usize = 0;
    while z < m
        invariant
            z <= m,
            m == inputs.len(),
            c.len() == z,
            forall|j: int| 0 <= j < z ==> #[trigger] c@[j] == 0,
        decreases m - z,
    {
        c.push(0);
        z = z + 1;
    }
    let mut out: Vec<(Vec<u8>, Vec<u8>)> = Vec::new();
    proof {
        assert(pairs_of(out@) == Seq::<Pair>::empty());
        lemma_overlay(consumed(runs, c@));
        assert forall|j: int| 0 <= j < m implies #[trigger] consumed(runs, c@)[j] == Map::<Seq<u8>, Seq<u8>>::empty() by {
            assert(runs[j].subrange(0, 0) == Seq::<Pair>::empty());
        }
        assert(overlay(consumed(runs, c@)) =~= Map::<Seq<u8>, Seq<u8>>::empty());
        lemma_cursor_sum_bounded(runs, c@, m as int);
    }
    loop
        invariant
            runs == runs_of(inputs@),
            m == inputs.len(),
            c.len() == m,
            forall|i: int| 0 <= i < inputs.len() ==> strictly_sorted(#[trigger] pairs_of(inputs@[i]@)),
            forall|j: int| 0 <= j < m ==> #[trigger] c@[j] <= runs[j].len(),
            strictly_sorted(pairs_of(out@)),
            forall|x: int, j: int| 0 <= x < out.len() && 0 <= j < m && c@[j] < runs[j].len()
                ==> lex_lt(#[trigger] pairs_of(out@)[x].0, #[trigger] runs[j][c@[j] as int].0),
            to_map(pairs_of(out@)) == overlay(consumed(runs, c@)),
            cursor_sum(c@, m as int) <= runs_total(runs, m as int),
        decreases runs_total(runs, m as int) - cursor_sum(c@, m as int),
    {
        proof {
            lemma_lex_order();
        }
        // The run whose head holds the smallest key, the newest on a tie.
        let mut best: usize = m;
        let mut j: usize = 0;
        while j < m
            invariant
                runs == runs_of(inputs@),
                m == inputs.len(),
                c.len() == m,
                j <= m,
                forall|j: int| 0 <= j < m ==> #[trigger] c@[j] <= runs[j].len(),
                best == m || (best < j && c@[best as int] < runs[best as int].len()),
                best == m ==> forall|i: int| 0 <= i < j ==> #[trigger] c@[i] == runs[i].len(),
                best < m ==> forall|i: int| 0 <= i < j && c@[i] < runs[i].len()
                    ==> !lex_lt(#[trigger] runs[i][c@[i] as int].0, runs[best as int][c@[best as int] as int].0),
                best < m ==> forall|i: int| best < i < j && c@[i] < runs[i].len()
                    ==> lex_lt(runs[best as int][c@[best as int] as int].0, #[trigger] runs[i][c@[i] as int].0),
            decreases m - j,
        {
            proof {
                lemma_lex_order();
            }
            if c[j] < inputs[j].len() {
                assert(runs[j as int] == pairs_of(inputs@[j as int]@));
                if best == m {
                    best = j;
                } else {
                    assert(runs[best as int] == pairs_of(inputs@[best as int]@));
                    assert(runs[j as int][c@[j as int] as int].0 == inputs@[j as int]@[c@[j as int] as int].0@);
                    assert(runs[best as int][c@[best as int] as int].0 == inputs@[best as int]@[c@[best as int] as int].0@);
                    match compare_keys(inputs[j][c[j]].0.as_slice(), inputs[best][c[best]].0.as_slice()) {
                        Ordering::Greater => {},
                        _ => {
                            best = j;
                        },
                    }
                }
            }
            j = j + 1;
        }
        if best == m {
            proof {
                assert forall|j: int| 0 <= j < m implies #[trigger] consumed(runs, c@)[j] == segment_maps(inputs@)[j] by {
                    assert(runs[j].subrange(0, c@[j] as int) == runs[j]);
                }
                assert(consumed(runs, c@) =~= segment_maps(inputs@));
            }
            break;
        }
        let ghost c0 = c@;
        let ghost b = best as int;
        assert(runs[b] == pairs_of(inputs@[b]@));
        let e = copy_pair(&inputs[best][c[best]]);
        let ghost kv = (e.0@, e.1@);
        assert(kv == runs[b][c0[b] as int]);
        let key = copy_bytes(e.0.as_slice());
        let ghost o0 = pairs_of(out@);
        out.push(e);
        assert(pairs_of(out@) == o0.push(kv));
        // Move every run whose head holds the key past it.
        let mut j: usize = 0;
        while j < m
            invariant
                runs == runs_of(inputs@),
                m == inputs.len(),
                c.len() == m,
                j <= m,
                forall|i: int| 0 <= i < m ==> #[trigger] c0[i] <= runs[i].len(),
                forall|i: int| 0 <= i < m ==> #[trigger] c@[i] as int == if i < j && c0[i] < runs[i].len() && runs[i][c0[i] as int].0 == kv.0 {
                    c0[i] + 1
                } else {
                    c0[i] as int
                },
            decreases m - j,
        {
            assert(runs.len() == m);
            if c[j] < inputs[j].len() {
                assert(runs[j as int] == pairs_of(inputs@[j as int]@));
                assert(runs[j as int][c@[j as int] as int].0 == inputs@[j as int]@[c@[j as int] as int].0@);
                if crate::keys::keys_equal(inputs[j][c[j]].0.as_slice(), key.as_slice()) {
                    c.set(j, c[j] + 1);
                }
            }
            j = j + 1;
        }
        proof {
            assert forall|i: int| 0 <= i < runs.len() implies strictly_sorted(#[trigger] runs[i]) by {
                assert(runs[i] == pairs_of(inputs@[i]@));
            }
            lemma_merge_step(runs, c0, c@, o0, b, kv);
            lemma_cursor_sum_bounded(runs, c@, m as int);
            assert(pairs_of(out@) == o0.push(kv));
        }
    }
    out
}

/// Tells whether the keys ascend strictly.
pub fn is_strictly_sorted(v: &Vec<(Vec<u8>, Vec<u8>)>) -> (r: bool)
    ensures
        r == strictly_sorted(pairs_of(v@)),
{
    let ghost s = pairs_of(v@);
    if v.len() == 0 {
        return true;
    }
    let mut i: usize = 1;
    while i < v.len()
        invariant
            s == pairs_of(v@),
            1 <= i <= v.len(),
            strictly_sorted(s.subrange(0, i as int)),
        decreases v.len() - i,
    {
        proof {
            lemma_lex_order();
        }
        assert(s[i - 1].0 == v@[i - 1].0@ && s[i as int].0 == v@[i as int].0@);
        match compare_keys(v[i - 1].0.as_slice(), v[i].0.as_slice()) {
            Ordering::Less => {},
            _ => {
                assert(!lex_lt(s[i - 1].0, s[i as int].0));
                return false;
            },
        }
        let ghost t = s.subrange(0, i + 1);
        assert forall|x: int, y: int| 0 <= x < y < t.len() implies lex_lt(#[trigger] t[x].0, #[trigger] t[y].0) by {
            if y == i {
                if x < i - 1 {
                    assert(lex_lt(s.subrange(0, i as int)[x].0, s.subrange(0, i as int)[i - 1].0));
                }
            } else {
                assert(lex_lt(s.subrange(0, i as int)[x].0, s.subrange(0, i as int)[y].0));
            }
        }
        i = i + 1;
    }
    assert(s.subrange(0, i as int) == s);
    true
}

/// The maps that segment files hold, oldest first.
pub open spec fn file_maps(files: Seq<Vec<u8>>) -> Seq<Map<Seq<u8>, Seq<u8>>> {
    files.map_values(|f: Vec<u8>| to_map(segment_pairs(f@)))
}

/// Compacts segment files given oldest first into the bytes of one segment
/// file, or `None` where a file's keys do not ascend strictly.
pub fn compact(files: &Vec<Vec<u8>>) -> (r: Option<Vec<u8>>)
    ensures
        r is Some == forall|i: int| 0 <= i < files.len() ==> strictly_sorted(#[trigger] segment_pairs(files@[i]@)),
        r matches Some(b) ==> {
            &&& strictly_sorted(segment_pairs(b@))
            &&& to_map(segment_pairs(b@)) == overlay(file_maps(files@))
            &&& b@ == segment_bytes(segment_pairs(b@))
        },
{
    let mut inputs: Vec<Vec<(Vec<u8>, Vec<u8>)>> = Vec::new();
    let mut i: usize = 0;
    while i < files.len()
        invariant
            i <= files.len(),
            inputs.len() == i,
            forall|x: int| 0 <= x < i ==> pairs_of(#[trigger] inputs@[x]@) == segment_pairs(files@[x]@),
            forall|x: int| 0 <= x < i ==> strictly_sorted(#[trigger] segment_pairs(files@[x]@)),
        decreases files.len() - i,
    {
        let pairs = read_segment(files[i].as_slice());
        if !is_strictly_sorted(&pairs) {
            return None;
        }
        inputs.push(pairs);
        i = i + 1;
    }
    assert forall|x: int| 0 <= x < inputs.len() implies strictly_sorted(#[trigger] pairs_of(inputs@[x]@)) by {
        assert(pairs_of(inputs@[x]@) == segment_pairs(files@[x]@));
    }
    let merged = merge_segments(&inputs);
    assert(segment_maps(inputs@) =~= file_maps(files@)) by {
        assert forall|x: int| 0 <= x < inputs.len() implies #[trigger] segment_maps(inputs@)[x] == file_maps(files@)[x] by {
            assert(pairs_of(inputs@[x]@) == segment_pairs(files@[x]@));
        }
    }
    let raw = RawSegment::from(Table::from_sorted(merged));
    let b = raw.to_bytes();
    proof {
        lemma_segment_file_round_trip(raw.pairs());
    }
    Some(b)
}

/// Overlaying two runs of segments is overlaying their overlays.
pub proof fn lemma_overlay_concat(a: Seq<Map<Seq<u8>, Seq<u8>>>, b: Seq<Map<Seq<u8>, Seq<u8>>>)
    ensures
        overlay(a + b) == overlay(a).union_prefer_right(overlay(b)),
    decreases b.len(),
{
    if b.len() == 0 {
        assert(a + b == a);
        assert(overlay(a).union_prefer_right(Map::empty()) =~= overlay(a));
    } else {
        lemma_overlay_concat(a, b.drop_last());
        assert((a + b).drop_last() == a + b.drop_last());
        assert((a + b).last() == b.last());
        assert(overlay(a).union_prefer_right(overlay(b.drop_last())).union_prefer_right(b.last())
            =~= overlay(a).union_prefer_right(overlay(b.drop_last()).union_prefer_right(b.last())));
    }
}

} // verus!
