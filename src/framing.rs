//! The line format of log and segment files: one record per line, fields
//! separated by commas, a field that holds a comma, a double quote or a line
//! terminator wrapped in double quotes with inner quotes doubled. Records are
//! written with `\n`; `\r` and `\r\n` end a record too when read.

use vstd::prelude::*;

verus! {

/// Field separator.
pub const COMMA: u8 = 44;

/// Quote character.
pub const QUOTE: u8 = 34;

/// Record terminator.
pub const NEWLINE: u8 = 10;

/// Carriage return, quoted like a terminator.
pub const CARRIAGE_RETURN: u8 = 13;

/// A byte that forces its field into quotes.
pub open spec fn is_special(c: u8) -> bool {
    c == COMMA || c == QUOTE || c == NEWLINE || c == CARRIAGE_RETURN
}

/// The field holds a byte that forces quotes.
pub open spec fn needs_quotes(f: Seq<u8>) -> bool {
    exists|i: int| 0 <= i < f.len() && is_special(#[trigger] f[i])
}

/// One byte inside quotes: a quote is doubled.
pub open spec fn escape_byte(c: u8) -> Seq<u8> {
    if c == QUOTE {
        seq![QUOTE, QUOTE]
    } else {
        seq![c]
    }
}

/// The bytes of a field inside quotes.
pub open spec fn escape(f: Seq<u8>) -> Seq<u8>
    decreases f.len(),
{
    if f.len() == 0 {
        Seq::empty()
    } else {
        escape_byte(f[0]) + escape(f.drop_first())
    }
}

/// A field as it is written.
pub open spec fn encode_field(f: Seq<u8>) -> Seq<u8> {
    if needs_quotes(f) {
        seq![QUOTE] + escape(f) + seq![QUOTE]
    } else {
        f
    }
}

/// A record of at least one field as it is written: fields joined by commas,
/// then a newline.
pub open spec fn encode_fields(fs: Seq<Seq<u8>>) -> Seq<u8>
    decreases fs.len(),
{
    if fs.len() <= 1 {
        if fs.len() == 0 {
            seq![NEWLINE]
        } else {
            encode_field(fs[0]) + seq![NEWLINE]
        }
    } else {
        encode_field(fs[0]) + seq![COMMA] + encode_fields(fs.drop_first())
    }
}

/// End of an unquoted field that starts at `i`: the first comma, newline or
/// carriage return, or the end of the input.
pub open spec fn unquoted_end(b: Seq<u8>, i: int) -> int
    decreases b.len() - i,
{
    if i < 0 || i >= b.len() {
        i
    } else if b[i] == COMMA || b[i] == NEWLINE || b[i] == CARRIAGE_RETURN {
        i
    } else {
        unquoted_end(b, i + 1)
    }
}

/// Reads the inside of a quoted field from `i`, after `acc`: the field and
/// the position after its closing quote, or `None` where no closing quote
/// comes.
pub open spec fn quoted_scan(b: Seq<u8>, i: int, acc: Seq<u8>) -> Option<(Seq<u8>, int)>
    decreases b.len() - i,
{
    if i < 0 || i >= b.len() {
        None
    } else if b[i] == QUOTE {
        if i + 1 < b.len() && b[i + 1] == QUOTE {
            quoted_scan(b, i + 2, acc.push(QUOTE))
        } else {
            Some((acc, i + 1))
        }
    } else {
        quoted_scan(b, i + 1, acc.push(b[i]))
    }
}

/// Reads one field from `i`: its bytes and the position just after it.
pub open spec fn field_at(b: Seq<u8>, i: int) -> Option<(Seq<u8>, int)> {
    if 0 <= i < b.len() && b[i] == QUOTE {
        quoted_scan(b, i + 1, Seq::empty())
    } else {
        Some((b.subrange(i, unquoted_end(b, i)), unquoted_end(b, i)))
    }
}

/// Reads the fields of a record from `i`, after `acc`: the fields and the
/// position after the record's terminator: a newline, a carriage return, or
/// both in that order (or the end of the input).
pub open spec fn fields_at(b: Seq<u8>, i: int, acc: Seq<Seq<u8>>) -> Option<(Seq<Seq<u8>>, int)>
    decreases b.len() - i,
{
    if i < 0 || i > b.len() {
        None
    } else {
        match field_at(b, i) {
            None => None,
            Some((f, j)) => {
                if j < i || j > b.len() {
                    None
                } else if j == b.len() {
                    Some((acc.push(f), j))
                } else if b[j] == NEWLINE {
                    Some((acc.push(f), j + 1))
                } else if b[j] == CARRIAGE_RETURN {
                    if j + 1 < b.len() && b[j + 1] == NEWLINE {
                        Some((acc.push(f), j + 2))
                    } else {
                        Some((acc.push(f), j + 1))
                    }
                } else if b[j] == COMMA {
                    fields_at(b, j + 1, acc.push(f))
                } else {
                    None
                }
            },
        }
    }
}

/// The record that starts at `i`, with the position after it; `None` at the
/// end of the input or on a malformed record.
pub open spec fn record_at(b: Seq<u8>, i: int) -> Option<(Seq<Seq<u8>>, int)> {
    if i < 0 || i >= b.len() {
        None
    } else {
        fields_at(b, i, Seq::empty())
    }
}

proof fn lemma_escape_concat(a: Seq<u8>, c: Seq<u8>)
    ensures
        escape(a + c) == escape(a) + escape(c),
    decreases a.len(),
{
    if a.len() == 0 {
        assert(a + c == c);
    } else {
        assert((a + c).drop_first() == a.drop_first() + c);
        lemma_escape_concat(a.drop_first(), c);
        assert((a + c)[0] == a[0]);
    }
}

proof fn lemma_escape_push(a: Seq<u8>, c: u8)
    ensures
        escape(a.push(c)) == escape(a) + escape_byte(c),
{
    lemma_escape_concat(a, seq![c]);
    assert(a.push(c) == a + seq![c]);
    assert(seq![c].drop_first() == Seq::<u8>::empty());
    assert(escape(seq![c]) == escape_byte(c) + escape(Seq::<u8>::empty()));
    assert(escape_byte(c) + Seq::<u8>::empty() == escape_byte(c));
}

proof fn lemma_unquoted_end(b: Seq<u8>, i: int, e: int)
    requires
        0 <= i <= e <= b.len(),
        forall|k: int| i <= k < e ==> b[k] != COMMA && b[k] != NEWLINE && b[k] != CARRIAGE_RETURN,
        e == b.len() || b[e] == COMMA || b[e] == NEWLINE,
    ensures
        unquoted_end(b, i) == e,
    decreases e - i,
{
    if i < e {
        lemma_unquoted_end(b, i + 1, e);
    }
}

proof fn lemma_quoted_scan(x: Seq<u8>, b: Seq<u8>, i: int, acc: Seq<u8>)
    requires
        0 <= i,
        i + escape(x).len() + 1 < b.len(),
        b.subrange(i, i + escape(x).len()) == escape(x),
        b[i + escape(x).len()] == QUOTE,
        b[i + escape(x).len() + 1] != QUOTE,
    ensures
        quoted_scan(b, i, acc) == Some((acc + x, i + escape(x).len() + 1)),
    decreases x.len(),
{
    if x.len() == 0 {
        assert(acc + x == acc);
    } else {
        let r = x.drop_first();
        let n = escape_byte(x[0]).len();
        assert(escape(x) == escape_byte(x[0]) + escape(r));
        assert(b.subrange(i + n, i + n + escape(r).len()) == escape(r)) by {
            assert forall|k: int| 0 <= k < escape(r).len() implies b.subrange(i + n, i + n + escape(r).len())[k] == escape(r)[k] by {
                assert(b.subrange(i, i + escape(x).len())[n + k] == escape(x)[n + k]);
            }
        }
        assert(b[i] == b.subrange(i, i + escape(x).len())[0]);
        if x[0] == QUOTE {
            assert(b[i + 1] == b.subrange(i, i + escape(x).len())[1]);
            lemma_quoted_scan(r, b, i + 2, acc.push(QUOTE));
            assert(acc.push(QUOTE) + r == acc + x);
        } else {
            lemma_quoted_scan(r, b, i + 1, acc.push(x[0]));
            assert(acc.push(x[0]) + r == acc + x);
        }
    }
}

/// A written field reads back as itself when a comma or a newline follows it.
proof fn lemma_field_round_trip(x: Seq<u8>, b: Seq<u8>, i: int)
    requires
        0 <= i,
        i + encode_field(x).len() < b.len(),
        b.subrange(i, i + encode_field(x).len()) == encode_field(x),
        b[i + encode_field(x).len()] == COMMA || b[i + encode_field(x).len()] == NEWLINE,
    ensures
        field_at(b, i) == Some((x, i + encode_field(x).len())),
{
    let e = encode_field(x);
    if needs_quotes(x) {
        assert(b[i] == b.subrange(i, i + e.len())[0]);
        let n = escape(x).len() as int;
        assert(b.subrange(i + 1, i + 1 + n) == escape(x)) by {
            assert forall|k: int| 0 <= k < n implies b.subrange(i + 1, i + 1 + n)[k] == escape(x)[k] by {
                assert(b.subrange(i, i + e.len())[1 + k] == e[1 + k]);
            }
        }
        assert(b[i + 1 + n] == b.subrange(i, i + e.len())[1 + n]);
        lemma_quoted_scan(x, b, i + 1, Seq::empty());
        assert(Seq::<u8>::empty() + x == x);
    } else {
        assert forall|k: int| i <= k < i + x.len() implies b[k] != COMMA && b[k] != NEWLINE && b[k] != CARRIAGE_RETURN by {
            assert(b[k] == b.subrange(i, i + e.len())[k - i]);
            assert(!is_special(x[k - i]));
        }
        if x.len() > 0 {
            assert(!is_special(x[0]));
        }
        lemma_unquoted_end(b, i, i + x.len());
        assert(b.subrange(i, i + x.len()) == x);
    }
}

/// A written record reads back as its fields, ending just after it.
pub proof fn lemma_fields_round_trip(fs: Seq<Seq<u8>>, b: Seq<u8>, i: int, acc: Seq<Seq<u8>>)
    requires
        fs.len() >= 1,
        0 <= i,
        i + encode_fields(fs).len() <= b.len(),
        b.subrange(i, i + encode_fields(fs).len()) == encode_fields(fs),
    ensures
        fields_at(b, i, acc) == Some((acc + fs, i + encode_fields(fs).len())),
    decreases fs.len(),
{
    let e = encode_field(fs[0]);
    let all = encode_fields(fs);
    assert(b.subrange(i, i + e.len()) == e) by {
        assert forall|k: int| 0 <= k < e.len() implies b.subrange(i, i + e.len())[k] == e[k] by {
            assert(b.subrange(i, i + all.len())[k] == all[k]);
        }
    }
    assert(b[i + e.len()] == b.subrange(i, i + all.len())[e.len() as int]);
    lemma_field_round_trip(fs[0], b, i);
    if fs.len() == 1 {
        assert(acc.push(fs[0]) == acc + fs);
    } else {
        let rest = fs.drop_first();
        let tail = encode_fields(rest);
        let j = i + e.len() + 1;
        assert(b.subrange(j, j + tail.len()) == tail) by {
            assert forall|k: int| 0 <= k < tail.len() implies b.subrange(j, j + tail.len())[k] == tail[k] by {
                assert(b.subrange(i, i + all.len())[e.len() + 1 + k] == all[e.len() + 1 + k]);
            }
        }
        lemma_fields_round_trip(rest, b, j, acc.push(fs[0]));
        assert(acc.push(fs[0]) + rest == acc + fs);
    }
}

/// A record written at `pre.len()` reads back as its fields, and reading
/// goes on just after it.
pub proof fn lemma_record_round_trip(fs: Seq<Seq<u8>>, pre: Seq<u8>, post: Seq<u8>)
    requires
        fs.len() >= 1,
    ensures
        record_at(pre + encode_fields(fs) + post, pre.len() as int)
            == Some((fs, (pre.len() + encode_fields(fs).len()) as int)),
{
    let b = pre + encode_fields(fs) + post;
    let i = pre.len() as int;
    assert(b.subrange(i, i + encode_fields(fs).len()) == encode_fields(fs));
    lemma_fields_round_trip(fs, b, i, Seq::empty());
    assert(Seq::<Seq<u8>>::empty() + fs == fs);
    assert(encode_fields(fs).len() > 0) by {
        if fs.len() == 1 {
        } else {
        }
    }
}

/// The spec values of a vector of byte vectors.
pub open spec fn views(v: Seq<Vec<u8>>) -> Seq<Seq<u8>> {
    v.map_values(|f: Vec<u8>| f@)
}

/// The spec value of what `read_record` returns.
pub open spec fn record_view(r: Option<(Vec<Vec<u8>>, usize)>) -> Option<(Seq<Seq<u8>>, int)> {
    match r {
        Some((fs, n)) => Some((views(fs@), n as int)),
        None => None,
    }
}

fn field_needs_quotes(f: &[u8]) -> (r: bool)
    ensures
        r == needs_quotes(f@),
{
    let mut i: usize = 0;
    while i < f.len()
        invariant
            0 <= i <= f.len(),
            forall|k: int| 0 <= k < i ==> !is_special(#[trigger] f@[k]),
        decreases f.len() - i,
    {
        let c = f[i];
        if c == COMMA || c == QUOTE || c == NEWLINE || c == CARRIAGE_RETURN {
            assert(is_special(f@[i as int]));
            return true;
        }
        i = i + 1;
    }
    false
}

/// Appends a field as it is written.
pub fn write_field(out: &mut Vec<u8>, f: &[u8])
    ensures
        final(out)@ == old(out)@ + encode_field(f@),
{
    if field_needs_quotes(f) {
        out.push(QUOTE);
        let ghost start = out@;
        let mut i: usize = 0;
        while i < f.len()
            invariant
                0 <= i <= f.len(),
                out@ == start + escape(f@.subrange(0, i as int)),
            decreases f.len() - i,
        {
            proof {
                lemma_escape_push(f@.subrange(0, i as int), f@[i as int]);
                assert(f@.subrange(0, i + 1) == f@.subrange(0, i as int).push(f@[i as int]));
            }
            if f[i] == QUOTE {
                out.push(QUOTE);
                out.push(QUOTE);
            } else {
                out.push(f[i]);
            }
            i = i + 1;
        }
        out.push(QUOTE);
        assert(f@.subrange(0, i as int) == f@);
    } else {
        let mut i: usize = 0;
        let ghost start = out@;
        while i < f.len()
            invariant
                0 <= i <= f.len(),
                out@ == start + f@.subrange(0, i as int),
            decreases f.len() - i,
        {
            assert(f@.subrange(0, i + 1) == f@.subrange(0, i as int).push(f@[i as int]));
            out.push(f[i]);
            i = i + 1;
        }
        assert(f@.subrange(0, i as int) == f@);
    }
}

/// Appends a record of at least one field as it is written.
pub fn write_record(out: &mut Vec<u8>, fields: &Vec<Vec<u8>>)
    requires
        fields.len() >= 1,
    ensures
        final(out)@ == old(out)@ + encode_fields(views(fields@)),
{
    let ghost fs = views(fields@);
    let ghost start = out@;
    let mut i: usize = 0;
    assert(fs.subrange(0, fs.len() as int) == fs);
    while i < fields.len()
        invariant
            fs == views(fields@),
            fields.len() >= 1,
            0 <= i <= fields.len(),
            i < fields.len() ==> start + encode_fields(fs) == out@ + encode_fields(fs.subrange(i as int, fs.len() as int)),
            i == fields.len() ==> out@ == start + encode_fields(fs),
        decreases fields.len() - i,
    {
        let ghost rest = fs.subrange(i as int, fs.len() as int);
        assert(rest[0] == fields@[i as int]@);
        write_field(out, fields[i].as_slice());
        if i + 1 < fields.len() {
            out.push(COMMA);
            assert(rest.drop_first() == fs.subrange(i + 1, fs.len() as int));
            assert(encode_fields(rest) == encode_field(rest[0]) + seq![COMMA] + encode_fields(rest.drop_first()));
        } else {
            out.push(NEWLINE);
            assert(encode_fields(rest) == encode_field(rest[0]) + seq![NEWLINE]);
        }
        i = i + 1;
    }
}

fn read_unquoted_end(b: &[u8], i: usize) -> (e: usize)
    requires
        i <= b.len(),
    ensures
        e == unquoted_end(b@, i as int),
        i <= e <= b.len(),
{
    let mut j: usize = i;
    while j < b.len() && b[j] != COMMA && b[j] != NEWLINE && b[j] != CARRIAGE_RETURN
        invariant
            i <= j <= b.len(),
            unquoted_end(b@, i as int) == unquoted_end(b@, j as int),
        decreases b.len() - j,
    {
        j = j + 1;
    }
    j
}

fn read_quoted(b: &[u8], i: usize) -> (r: Option<(Vec<u8>, usize)>)
    requires
        i <= b.len(),
    ensures
        match r {
            Some((f, e)) => quoted_scan(b@, i as int, Seq::empty()) == Some((f@, e as int)),
            None => quoted_scan(b@, i as int, Seq::empty()) is None,
        },
{
    let mut acc: Vec<u8> = Vec::new();
    let mut j: usize = i;
    while j < b.len()
        invariant
            i <= j <= b.len(),
            quoted_scan(b@, i as int, Seq::empty()) == quoted_scan(b@, j as int, acc@),
        decreases b.len() - j,
    {
        if b[j] == QUOTE {
            if j + 1 < b.len() && b[j + 1] == QUOTE {
                acc.push(QUOTE);
                j = j + 2;
            } else {
                return Some((acc, j + 1));
            }
        } else {
            acc.push(b[j]);
            j = j + 1;
        }
    }
    None
}

fn read_field(b: &[u8], i: usize) -> (r: Option<(Vec<u8>, usize)>)
    requires
        i <= b.len(),
    ensures
        match r {
            Some((f, e)) => field_at(b@, i as int) == Some((f@, e as int)),
            None => field_at(b@, i as int) is None,
        },
{
    if i < b.len() && b[i] == QUOTE {
        read_quoted(b, i + 1)
    } else {
        let e = read_unquoted_end(b, i);
        let f = crate::keys::copy_range(b, i, e);
        Some((f, e))
    }
}

/// Reads the record that starts at `pos`: its fields and the position after
/// it; `None` at the end of the input or on a malformed record.
pub fn read_record(b: &[u8], pos: usize) -> (r: Option<(Vec<Vec<u8>>, usize)>)
    ensures
        record_view(r) == record_at(b@, pos as int),
        match r {
            Some((fs, n)) => pos < n <= b.len() && fs.len() >= 1,
            None => true,
        },
{
    if pos >= b.len() {
        return None;
    }
    let mut acc: Vec<Vec<u8>> = Vec::new();
    let mut j: usize = pos;
    assert(views(acc@) == Seq::<Seq<u8>>::empty());
    loop
        invariant
            pos <= j <= b.len(),
            pos < b.len(),
            j > pos ==> acc.len() >= 1,
            record_at(b@, pos as int) == fields_at(b@, j as int, views(acc@)),
        decreases b.len() - j,
    {
        match read_field(b, j) {
            None => {
                return None;
            },
            Some((f, k)) => {
                if k < j || k > b.len() {
                    return None;
                }
                let ghost before = views(acc@);
                acc.push(f);
                assert(views(acc@) == before.push(f@));
                if k == b.len() {
                    if k == pos {
                        return None;
                    }
                    return Some((acc, k));
                } else if b[k] == NEWLINE {
                    return Some((acc, k + 1));
                } else if b[k] == CARRIAGE_RETURN {
                    if k + 1 < b.len() && b[k + 1] == NEWLINE {
                        return Some((acc, k + 2));
                    }
                    return Some((acc, k + 1));
                } else if b[k] == COMMA {
                    j = k + 1;
                } else {
                    return None;
                }
            },
        }
    }
}

/// Sum of the lengths of the fields.
pub open spec fn total_len(fs: Seq<Seq<u8>>) -> nat
    decreases fs.len(),
{
    if fs.len() == 0 {
        0
    } else {
        total_len(fs.drop_last()) + fs.last().len()
    }
}

proof fn lemma_total_len_ge(fs: Seq<Seq<u8>>, a: int, b: int)
    requires
        0 <= a < b < fs.len(),
    ensures
        fs[a].len() + fs[b].len() <= total_len(fs),
    decreases fs.len(),
{
    let t = fs.drop_last();
    if b < fs.len() - 1 {
        lemma_total_len_ge(t, a, b);
    } else {
        lemma_total_len_one(t, a);
    }
}

proof fn lemma_total_len_one(fs: Seq<Seq<u8>>, a: int)
    requires
        0 <= a < fs.len(),
    ensures
        fs[a].len() <= total_len(fs),
    decreases fs.len(),
{
    if a < fs.len() - 1 {
        lemma_total_len_one(fs.drop_last(), a);
    }
}

proof fn lemma_unquoted_end_bounds(b: Seq<u8>, i: int)
    requires
        0 <= i <= b.len(),
    ensures
        i <= unquoted_end(b, i) <= b.len(),
    decreases b.len() - i,
{
    if i < b.len() && b[i] != COMMA && b[i] != NEWLINE && b[i] != CARRIAGE_RETURN {
        lemma_unquoted_end_bounds(b, i + 1);
    }
}

proof fn lemma_quoted_scan_len(b: Seq<u8>, i: int, acc: Seq<u8>)
    ensures
        match quoted_scan(b, i, acc) {
            Some((f, e)) => i < e <= b.len() && f.len() + i <= acc.len() + e,
            None => true,
        },
    decreases b.len() - i,
{
    if 0 <= i < b.len() {
        if b[i] == QUOTE {
            if i + 1 < b.len() && b[i + 1] == QUOTE {
                lemma_quoted_scan_len(b, i + 2, acc.push(QUOTE));
            }
        } else {
            lemma_quoted_scan_len(b, i + 1, acc.push(b[i]));
        }
    }
}

proof fn lemma_fields_at_len(b: Seq<u8>, i: int, acc: Seq<Seq<u8>>)
    ensures
        match fields_at(b, i, acc) {
            Some((fs, e)) => i <= e <= b.len() && (i < b.len() ==> i < e) && total_len(fs) + i <= total_len(acc) + e,
            None => true,
        },
    decreases b.len() - i,
{
    if 0 <= i <= b.len() {
        if 0 <= i < b.len() && b[i] == QUOTE {
            lemma_quoted_scan_len(b, i + 1, Seq::empty());
        } else {
            lemma_unquoted_end_bounds(b, i);
        }
        match field_at(b, i) {
            None => {},
            Some((f, j)) => {
                assert(acc.push(f).drop_last() == acc);
                if i <= j <= b.len() && j < b.len() && b[j] != NEWLINE && b[j] != CARRIAGE_RETURN && b[j] == COMMA {
                    lemma_fields_at_len(b, j + 1, acc.push(f));
                }
            },
        }
    }
}

/// The key and value of a record that reads as at least three fields take
/// no more bytes than the record.
pub proof fn lemma_record_fields_len(b: Seq<u8>, i: int)
    ensures
        match record_at(b, i) {
            Some((fs, e)) => i < e <= b.len() && (fs.len() >= 3 ==> fs[1].len() + fs[2].len() <= e - i),
            None => true,
        },
{
    if 0 <= i < b.len() {
        lemma_fields_at_len(b, i, Seq::empty());
        match record_at(b, i) {
            Some((fs, e)) => {
                if fs.len() >= 3 {
                    lemma_total_len_ge(fs, 1, 2);
                }
            },
            None => {},
        }
    }
}

/// A read result with its end position moved back by `s`.
pub open spec fn shift_back<T>(r: Option<(T, int)>, s: int) -> Option<(T, int)> {
    match r {
        Some((x, e)) => Some((x, e - s)),
        None => None,
    }
}

proof fn lemma_shift_unquoted(b: Seq<u8>, s: int, i: int)
    requires
        0 <= s <= i <= b.len(),
    ensures
        unquoted_end(b.subrange(s, b.len() as int), i - s) == unquoted_end(b, i) - s,
    decreases b.len() - i,
{
    let t = b.subrange(s, b.len() as int);
    if i < b.len() {
        assert(t[i - s] == b[i]);
        if !(b[i] == COMMA || b[i] == NEWLINE || b[i] == CARRIAGE_RETURN) {
            lemma_shift_unquoted(b, s, i + 1);
        }
    }
}

proof fn lemma_shift_quoted(b: Seq<u8>, s: int, i: int, acc: Seq<u8>)
    requires
        0 <= s <= i,
        s <= b.len(),
    ensures
        quoted_scan(b.subrange(s, b.len() as int), i - s, acc) == shift_back(quoted_scan(b, i, acc), s),
    decreases b.len() - i,
{
    let t = b.subrange(s, b.len() as int);
    if i < b.len() {
        assert(t[i - s] == b[i]);
        if i + 1 < b.len() {
            assert(t[i + 1 - s] == b[i + 1]);
        }
        if b[i] == QUOTE {
            if i + 1 < b.len() && b[i + 1] == QUOTE {
                lemma_shift_quoted(b, s, i + 2, acc.push(QUOTE));
            }
        } else {
            lemma_shift_quoted(b, s, i + 1, acc.push(b[i]));
        }
    }
}

proof fn lemma_shift_field(b: Seq<u8>, s: int, i: int)
    requires
        0 <= s <= i <= b.len(),
    ensures
        field_at(b.subrange(s, b.len() as int), i - s) == shift_back(field_at(b, i), s),
{
    let t = b.subrange(s, b.len() as int);
    if i < b.len() {
        assert(t[i - s] == b[i]);
    }
    if 0 <= i < b.len() && b[i] == QUOTE {
        lemma_shift_quoted(b, s, i + 1, Seq::empty());
    } else {
        lemma_shift_unquoted(b, s, i);
        lemma_unquoted_end_bounds(b, i);
        let e = unquoted_end(b, i);
        assert(t.subrange(i - s, e - s) == b.subrange(i, e));
    }
}

proof fn lemma_shift_fields(b: Seq<u8>, s: int, i: int, acc: Seq<Seq<u8>>)
    requires
        0 <= s <= i <= b.len(),
    ensures
        fields_at(b.subrange(s, b.len() as int), i - s, acc) == shift_back(fields_at(b, i, acc), s),
    decreases b.len() - i,
{
    let t = b.subrange(s, b.len() as int);
    lemma_shift_field(b, s, i);
    match field_at(b, i) {
        None => {},
        Some((f, j)) => {
            if i <= j < b.len() {
                assert(t[j - s] == b[j]);
                if j + 1 < b.len() {
                    assert(t[j + 1 - s] == b[j + 1]);
                }
                if b[j] != NEWLINE && b[j] != CARRIAGE_RETURN && b[j] == COMMA {
                    lemma_shift_fields(b, s, j + 1, acc.push(f));
                }
            }
        },
    }
}

/// Reading a record from the bytes past `s` is reading it from the whole,
/// with positions counted from `s`.
pub proof fn lemma_shift_record(b: Seq<u8>, s: int, i: int)
    requires
        0 <= s <= i <= b.len(),
    ensures
        record_at(b.subrange(s, b.len() as int), i - s) == shift_back(record_at(b, i), s),
{
    if i < b.len() {
        lemma_shift_fields(b, s, i, Seq::empty());
    }
}

} // verus!
