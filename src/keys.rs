//! Byte strings and their lexicographic order.

use vstd::prelude::*;
use std::cmp::Ordering;

verus! {

/// `a` sorts before `b`, comparing the bytes from position `i` on.
pub open spec fn lex_lt_from(a: Seq<u8>, b: Seq<u8>, i: int) -> bool
    decreases a.len() - i,
{
    if i < 0 || i >= a.len() {
        0 <= i < b.len()
    } else if i >= b.len() {
        false
    } else if a[i] != b[i] {
        a[i] < b[i]
    } else {
        lex_lt_from(a, b, i + 1)
    }
}

/// `a` sorts strictly before `b` as unsigned bytes, a proper prefix first.
pub open spec fn lex_lt(a: Seq<u8>, b: Seq<u8>) -> bool {
    lex_lt_from(a, b, 0)
}

/// `a` sorts before `b` or equals it.
pub open spec fn lex_le(a: Seq<u8>, b: Seq<u8>) -> bool {
    lex_lt(a, b) || a == b
}

proof fn lemma_lex_lt_from_irreflexive(a: Seq<u8>, i: int)
    requires
        0 <= i,
    ensures
        !lex_lt_from(a, a, i),
    decreases a.len() - i,
{
    if i < a.len() {
        lemma_lex_lt_from_irreflexive(a, i + 1);
    }
}

proof fn lemma_lex_lt_from_transitive(a: Seq<u8>, b: Seq<u8>, c: Seq<u8>, i: int)
    requires
        0 <= i,
        lex_lt_from(a, b, i),
        lex_lt_from(b, c, i),
    ensures
        lex_lt_from(a, c, i),
    decreases a.len() - i,
{
    if i < a.len() && i < b.len() && i < c.len() && a[i] == b[i] && b[i] == c[i] {
        lemma_lex_lt_from_transitive(a, b, c, i + 1);
    }
}

proof fn lemma_lex_lt_from_total(a: Seq<u8>, b: Seq<u8>, i: int)
    requires
        0 <= i <= a.len(),
        i <= b.len(),
        a.subrange(0, i) == b.subrange(0, i),
        !lex_lt_from(a, b, i),
        !lex_lt_from(b, a, i),
    ensures
        a == b,
    decreases a.len() - i,
{
    if i < a.len() && i < b.len() {
        assert(a.subrange(0, i + 1) == a.subrange(0, i).push(a[i]));
        assert(b.subrange(0, i + 1) == b.subrange(0, i).push(b[i]));
        lemma_lex_lt_from_total(a, b, i + 1);
    } else {
        assert(a == a.subrange(0, i));
        assert(b == b.subrange(0, i));
    }
}

/// `lex_lt` is a strict total order.
pub proof fn lemma_lex_order()
    ensures
        forall|a: Seq<u8>| !#[trigger] lex_lt(a, a),
        forall|a: Seq<u8>, b: Seq<u8>, c: Seq<u8>|
            #[trigger] lex_lt(a, b) && #[trigger] lex_lt(b, c) ==> lex_lt(a, c),
        forall|a: Seq<u8>, b: Seq<u8>|
            a != b ==> #[trigger] lex_lt(a, b) || #[trigger] lex_lt(b, a),
{
    assert forall|a: Seq<u8>| !#[trigger] lex_lt(a, a) by {
        lemma_lex_lt_from_irreflexive(a, 0);
    }
    assert forall|a: Seq<u8>, b: Seq<u8>, c: Seq<u8>|
        #[trigger] lex_lt(a, b) && #[trigger] lex_lt(b, c) implies lex_lt(a, c) by {
        lemma_lex_lt_from_transitive(a, b, c, 0);
    }
    assert forall|a: Seq<u8>, b: Seq<u8>|
        a != b implies #[trigger] lex_lt(a, b) || #[trigger] lex_lt(b, a) by {
        if !lex_lt(a, b) && !lex_lt(b, a) {
            assert(a.subrange(0, 0) == b.subrange(0, 0));
            lemma_lex_lt_from_total(a, b, 0);
        }
    }
}

/// Compares two byte strings lexicographically.
pub fn compare_keys(a: &[u8], b: &[u8]) -> (r: Ordering)
    ensures
        r == Ordering::Less <==> lex_lt(a@, b@),
        r == Ordering::Equal <==> a@ == b@,
        r == Ordering::Greater <==> lex_lt(b@, a@),
{
    proof {
        lemma_lex_order();
    }
    let mut i: usize = 0;
    while i < a.len() && i < b.len()
        invariant
            0 <= i <= a.len(),
            i <= b.len(),
            a@.subrange(0, i as int) == b@.subrange(0, i as int),
            lex_lt(a@, b@) == lex_lt_from(a@, b@, i as int),
            lex_lt(b@, a@) == lex_lt_from(b@, a@, i as int),
        decreases a.len() - i,
    {
        if a[i] != b[i] {
            if a[i] < b[i] {
                return Ordering::Less;
            } else {
                return Ordering::Greater;
            }
        }
        assert(a@.subrange(0, i + 1) == a@.subrange(0, i as int).push(a@[i as int]));
        assert(b@.subrange(0, i + 1) == b@.subrange(0, i as int).push(b@[i as int]));
        i = i + 1;
    }
    if a.len() < b.len() {
        Ordering::Less
    } else if b.len() < a.len() {
        Ordering::Greater
    } else {
        assert(a@ == a@.subrange(0, i as int));
        assert(b@ == b@.subrange(0, i as int));
        Ordering::Equal
    }
}

/// Tells whether two byte strings are equal.
pub fn keys_equal(a: &[u8], b: &[u8]) -> (r: bool)
    ensures
        r == (a@ == b@),
{
    match compare_keys(a, b) {
        Ordering::Equal => true,
        _ => false,
    }
}

/// Copies the bytes of `a` from `from` up to `to` into a new vector.
pub fn copy_range(a: &[u8], from: usize, to: usize) -> (r: Vec<u8>)
    requires
        from <= to <= a.len(),
    ensures
        r@ == a@.subrange(from as int, to as int),
{
    let mut r: Vec<u8> = Vec::with_capacity(to - from);
    let mut i: usize = from;
    while i < to
        invariant
            from <= i <= to,
            to <= a.len(),
            r@ == a@.subrange(from as int, i as int),
        decreases to - i,
    {
        r.push(a[i]);
        assert(a@.subrange(from as int, i + 1) == a@.subrange(from as int, i as int).push(a@[i as int]));
        i = i + 1;
    }
    r
}

/// Copies a byte slice into a new vector.
pub fn copy_bytes(a: &[u8]) -> (r: Vec<u8>)
    ensures
        r@ == a@,
{
    let mut r: Vec<u8> = Vec::with_capacity(a.len());
    let mut i: usize = 0;
    while i < a.len()
        invariant
            0 <= i <= a.len(),
            r@ == a@.subrange(0, i as int),
        decreases a.len() - i,
    {
        r.push(a[i]);
        assert(a@.subrange(0, i + 1) == a@.subrange(0, i as int).push(a@[i as int]));
        i = i + 1;
    }
    assert(a@ == a@.subrange(0, i as int));
    r
}

} // verus!
