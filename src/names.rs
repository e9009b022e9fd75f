//! File names of the data directory: `<id>.<suffix>`, with a base-10 id.

use vstd::prelude::*;
use vstd::string::StringSliceAdditionalSpecFns;
use vstd::utf8::{encode_utf8, encode_utf8_valid_utf8, is_char_boundary_iff_not_is_continuation_byte};
use crate::errors::{Error, MemtableError};

verus! {

/// ASCII `0`.
pub const DIGIT_ZERO: u8 = 48;

/// ASCII `.`, between the id and the suffix.
pub const DOT: u8 = 46;

/// ASCII `+`, a sign that an id may carry.
pub const PLUS: u8 = 43;

/// Every byte is a decimal digit.
pub open spec fn all_digits(s: Seq<u8>) -> bool {
    forall|i: int| 0 <= i < s.len() ==> 48 <= #[trigger] s[i] <= 57
}

/// The number that decimal digits write.
pub open spec fn digits_value(s: Seq<u8>) -> nat
    decreases s.len(),
{
    if s.len() == 0 {
        0
    } else {
        10 * digits_value(s.drop_last()) + (s.last() - 48) as nat
    }
}

/// The unsigned 64-bit integer that a string writes in base 10, with an
/// optional leading `+`.
pub open spec fn parse_id_spec(s: Seq<u8>) -> Option<u64> {
    let d = if s.len() > 0 && s[0] == PLUS { s.drop_first() } else { s };
    if d.len() > 0 && all_digits(d) && digits_value(d) <= u64::MAX {
        Some(digits_value(d) as u64)
    } else {
        None
    }
}

proof fn lemma_digits_value_monotone(s: Seq<u8>, i: int)
    requires
        0 <= i <= s.len(),
        all_digits(s),
    ensures
        digits_value(s.subrange(0, i)) <= digits_value(s),
    decreases s.len() - i,
{
    if i < s.len() {
        lemma_digits_value_monotone(s, i + 1);
        let t = s.subrange(0, i + 1);
        assert(t.drop_last() == s.subrange(0, i));
        assert(48 <= s[i] <= 57);
    } else {
        assert(s.subrange(0, i) == s);
    }
}

/// Parses a base-10 id.
pub fn parse_id(s: &[u8]) -> (r: Option<u64>)
    ensures
        r == parse_id_spec(s@),
{
    let start: usize = if s.len() > 0 && s[0] == PLUS { 1 } else { 0 };
    let ghost d = if s@.len() > 0 && s@[0] == PLUS { s@.drop_first() } else { s@ };
    assert(d == s@.subrange(start as int, s@.len() as int));
    if start >= s.len() {
        return None;
    }
    let mut v: u64 = 0;
    let mut i: usize = start;
    while i < s.len()
        invariant
            start <= i <= s.len(),
            d == s@.subrange(start as int, s@.len() as int),
            d == (if s@.len() > 0 && s@[0] == PLUS { s@.drop_first() } else { s@ }),
            d.len() > 0,
            all_digits(d.subrange(0, i - start)),
            v as nat == digits_value(d.subrange(0, i - start)),
        decreases s.len() - i,
    {
        let c = s[i];
        if c < 48 || c > 57 {
            assert(d[i - start] == c);
            return None;
        }
        let digit = (c - 48) as u64;
        let ghost t = d.subrange(0, i - start + 1);
        assert(t.drop_last() == d.subrange(0, i - start));
        assert(t.last() == c);
        if v > (u64::MAX - digit) / 10 {
            proof {
                assert(10 * v + digit > u64::MAX) by (nonlinear_arith)
                    requires
                        v > (u64::MAX - digit) / 10,
                        digit <= 9,
                ;
                if all_digits(d) {
                    lemma_digits_value_monotone(d, i - start + 1);
                }
            }
            return None;
        }
        proof {
            assert(10 * v + digit <= u64::MAX) by (nonlinear_arith)
                requires
                    v <= (u64::MAX - digit) / 10,
                    digit <= 9,
            ;
            assert forall|k: int| 0 <= k < t.len() implies 48 <= #[trigger] t[k] <= 57 by {
                if k < t.len() - 1 {
                    assert(t[k] == d.subrange(0, i - start)[k]);
                }
            }
        }
        v = v * 10 + digit;
        i = i + 1;
    }
    assert(d.subrange(0, i - start) == d);
    Some(v)
}

/// What a file of the data directory is.
pub enum FileKind {
    /// A log of that id.
    Log(u64),
    /// A segment of that id.
    Segment(u64),
    /// Any other file, temporary segment files among them.
    Other,
}

/// Position of the last dot of a name, searched below `i`.
pub open spec fn last_dot_below(b: Seq<u8>, i: int) -> Option<int>
    decreases i,
{
    if i <= 0 || i > b.len() {
        None
    } else if b[i - 1] == DOT {
        Some(i - 1)
    } else {
        last_dot_below(b, i - 1)
    }
}

/// The kind of a file named `name`: split at its last dot, a log or segment
/// suffix makes it a log or a segment, whose id must parse; any other name is
/// `Other`.
pub open spec fn classify_spec(name: Seq<u8>, log_suffix: Seq<u8>, data_suffix: Seq<u8>) -> Option<FileKind> {
    match last_dot_below(name, name.len() as int) {
        None => Some(FileKind::Other),
        Some(d) => {
            let id = name.subrange(0, d);
            let suffix = name.subrange(d + 1, name.len() as int);
            if suffix == log_suffix {
                match parse_id_spec(id) {
                    Some(v) => Some(FileKind::Log(v)),
                    None => None,
                }
            } else if suffix == data_suffix {
                match parse_id_spec(id) {
                    Some(v) => Some(FileKind::Segment(v)),
                    None => None,
                }
            } else {
                Some(FileKind::Other)
            }
        },
    }
}

/// `e` is the error for a name whose id does not parse: `ParseLogId` under
/// the log suffix, `ParseSegemntId` under the data suffix, either carrying
/// the id part of the name, before its last dot.
pub open spec fn parse_error_spec(name: Seq<u8>, log_suffix: Seq<u8>, data_suffix: Seq<u8>, e: Error) -> bool {
    match last_dot_below(name, name.len() as int) {
        None => false,
        Some(d) => {
            let id = name.subrange(0, d);
            let suffix = name.subrange(d + 1, name.len() as int);
            if suffix == log_suffix {
                match e {
                    Error::Memtable(MemtableError::ParseLogId(s)) => encode_utf8(s@) == id,
                    _ => false,
                }
            } else if suffix == data_suffix {
                match e {
                    Error::ParseSegemntId(s) => encode_utf8(s@) == id,
                    _ => false,
                }
            } else {
                false
            }
        },
    }
}

fn bytes_equal_at(a: &[u8], from: usize, b: &[u8]) -> (r: bool)
    requires
        from <= a.len(),
    ensures
        r == (a@.subrange(from as int, a@.len() as int) == b@),
{
    if a.len() - from != b.len() {
        return false;
    }
    let mut i: usize = 0;
    while i < b.len()
        invariant
            from <= a.len(),
            a.len() - from == b.len(),
            i <= b.len(),
            forall|k: int| 0 <= k < i ==> a@[from + k] == b@[k],
        decreases b.len() - i,
    {
        if a[from + i] != b[i] {
            assert(a@.subrange(from as int, a@.len() as int)[i as int] != b@[i as int]);
            return false;
        }
        i = i + 1;
    }
    assert(a@.subrange(from as int, a@.len() as int) =~= b@);
    true
}

/// Classifies a file of the data directory by its name. A log or segment
/// suffix whose id does not parse is an error naming the file.
pub fn classify_file_name(name: &str, log_suffix: &str, data_suffix: &str) -> (r: Result<FileKind, Error>)
    ensures
        match classify_spec(name.spec_bytes(), log_suffix.spec_bytes(), data_suffix.spec_bytes()) {
            Some(k) => r == Ok::<FileKind, Error>(k),
            None => r matches Err(e) && parse_error_spec(
                name.spec_bytes(),
                log_suffix.spec_bytes(),
                data_suffix.spec_bytes(),
                e,
            ),
        },
{
    let b = name.as_bytes();
    let mut i: usize = b.len();
    while i > 0 && b[i - 1] != DOT
        invariant
            i <= b.len(),
            last_dot_below(b@, b@.len() as int) == last_dot_below(b@, i as int),
        decreases i,
    {
        i = i - 1;
    }
    if i == 0 {
        return Ok(FileKind::Other);
    }
    let d = i - 1;
    let id = crate::keys::copy_range(b, 0, d);
    proof {
        encode_utf8_valid_utf8(name@);
        is_char_boundary_iff_not_is_continuation_byte(b@, d as int);
    }
    let (id_str, _) = name.split_at(d);
    if bytes_equal_at(b, d + 1, log_suffix.as_bytes()) {
        match parse_id(id.as_slice()) {
            Some(v) => Ok(FileKind::Log(v)),
            None => Err(Error::Memtable(MemtableError::ParseLogId(id_str.to_owned()))),
        }
    } else if bytes_equal_at(b, d + 1, data_suffix.as_bytes()) {
        match parse_id(id.as_slice()) {
            Some(v) => Ok(FileKind::Segment(v)),
            None => Err(Error::ParseSegemntId(id_str.to_owned())),
        }
    } else {
        Ok(FileKind::Other)
    }
}

/// The ids of named files, ascending strictly.
pub open spec fn entry_ids_ascending(v: Seq<(u64, String)>) -> bool {
    forall|i: int, j: int| 0 <= i < j < v.len() ==> #[trigger] v[i].0 < #[trigger] v[j].0
}

/// Some entry has id `id`.
pub open spec fn has_id(v: Seq<(u64, String)>, id: u64) -> bool {
    exists|i: int| 0 <= i < v.len() && #[trigger] v[i].0 == id
}

/// Adds a named file unless one of its id is there, keeping ids in order.
fn insert_entry(v: &mut Vec<(u64, String)>, id: u64, name: &str)
    requires
        entry_ids_ascending(old(v)@),
    ensures
        entry_ids_ascending(final(v)@),
        has_id(final(v)@, id),
        forall|x: u64| #[trigger] has_id(final(v)@, x) <==> has_id(old(v)@, x) || x == id,
        forall|i: int| 0 <= i < final(v)@.len() ==> #[trigger] final(v)@[i] == (id, final(v)@[i].1)
            && final(v)@[i].1@ == name@ || old(v)@.contains(final(v)@[i]),
{
    let ghost v0 = v@;
    let mut p: usize = 0;
    while p < v.len() && v[p].0 < id
        invariant
            p <= v@.len(),
            v@ == v0,
            forall|q: int| 0 <= q < p ==> #[trigger] v0[q].0 < id,
        decreases v@.len() - p,
    {
        p = p + 1;
    }
    if p < v.len() && v[p].0 == id {
        assert forall|i: int| 0 <= i < v@.len() implies #[trigger] v@[i] == (id, v@[i].1)
            && v@[i].1@ == name@ || v0.contains(v@[i]) by {
            assert(v0[i] == v@[i]);
        }
        return;
    }
    v.insert(p, (id, name.to_owned()));
    proof {
        let w = v@;
        assert(w == v0.insert(p as int, w[p as int]));
        assert forall|a: int, b: int| 0 <= a < b < w.len() implies #[trigger] w[a].0 < #[trigger] w[b].0 by {
            if b < p {
            } else if b == p {
            } else if a < p {
                if b - 1 > p {
                    assert(v0[p as int].0 < v0[b - 1].0);
                }
            } else if a == p {
                if b - 1 > p {
                    assert(v0[p as int].0 < v0[b - 1].0);
                }
            } else {
                assert(v0[a - 1].0 < v0[b - 1].0);
            }
        }
        assert(w[p as int].0 == id);
        assert forall|x: u64| #[trigger] has_id(w, x) <==> has_id(v0, x) || x == id by {
            if has_id(w, x) {
                let i = choose|i: int| 0 <= i < w.len() && #[trigger] w[i].0 == x;
                if i < p {
                    assert(v0[i].0 == x);
                } else if i > p {
                    assert(v0[i - 1].0 == x);
                }
            }
            if has_id(v0, x) {
                let i = choose|i: int| 0 <= i < v0.len() && #[trigger] v0[i].0 == x;
                if i < p {
                    assert(w[i].0 == x);
                } else {
                    assert(w[i + 1].0 == x);
                }
            }
        }
        assert forall|i: int| 0 <= i < w.len() implies #[trigger] w[i] == (id, w[i].1)
            && w[i].1@ == name@ || v0.contains(w[i]) by {
            if i < p {
                assert(w[i] == v0[i]);
            } else if i > p {
                assert(w[i] == v0[i - 1]);
            }
        }
    }
}

/// The logs and segments of a data directory, each by ascending id, and the
/// greatest segment id (zero without segments).
pub struct DirListing {
    /// Logs: id and file name.
    pub logs: Vec<(u64, String)>,
    /// Segments: id and file name.
    pub segments: Vec<(u64, String)>,
    /// The greatest segment id, or zero.
    pub max_segment_id: u64,
}

/// Sorts the files of a data directory into logs and segments by their
/// names; other files are passed over, and of two files with one id the
/// first listed is kept. A log or segment name whose id does not parse is an
/// error, the first such name in the listing.
pub fn scan_dir(names: &Vec<String>, log_suffix: &str, data_suffix: &str) -> (r: Result<DirListing, Error>)
    ensures
        r is Err == exists|i: int| 0 <= i < names.len()
            && classify_spec(encode_utf8((#[trigger] names@[i])@), log_suffix.spec_bytes(), data_suffix.spec_bytes()) is None,
        r matches Err(e) ==> exists|i: int| 0 <= i < names.len()
            && (forall|j: int| 0 <= j < i ==> classify_spec(encode_utf8((#[trigger] names@[j])@), log_suffix.spec_bytes(), data_suffix.spec_bytes()) is Some)
            && parse_error_spec(encode_utf8((#[trigger] names@[i])@), log_suffix.spec_bytes(), data_suffix.spec_bytes(), e),
        r matches Ok(l) ==> {
            &&& entry_ids_ascending(l.logs@)
            &&& entry_ids_ascending(l.segments@)
            &&& forall|x: u64| #[trigger] has_id(l.logs@, x) <==> exists|i: int| 0 <= i < names.len()
                && classify_spec(encode_utf8((#[trigger] names@[i])@), log_suffix.spec_bytes(), data_suffix.spec_bytes())
                    == Some(FileKind::Log(x))
            &&& forall|x: u64| #[trigger] has_id(l.segments@, x) <==> exists|i: int| 0 <= i < names.len()
                && classify_spec(encode_utf8((#[trigger] names@[i])@), log_suffix.spec_bytes(), data_suffix.spec_bytes())
                    == Some(FileKind::Segment(x))
            &&& forall|x: int| 0 <= x < l.logs@.len() ==> exists|j: int| 0 <= j < names.len()
                && (#[trigger] names@[j])@ == (#[trigger] l.logs@[x]).1@
                && classify_spec(encode_utf8(names@[j]@), log_suffix.spec_bytes(), data_suffix.spec_bytes())
                    == Some(FileKind::Log(l.logs@[x].0))
            &&& forall|x: int| 0 <= x < l.segments@.len() ==> exists|j: int| 0 <= j < names.len()
                && (#[trigger] names@[j])@ == (#[trigger] l.segments@[x]).1@
                && classify_spec(encode_utf8(names@[j]@), log_suffix.spec_bytes(), data_suffix.spec_bytes())
                    == Some(FileKind::Segment(l.segments@[x].0))
            &&& l.segments@.len() == 0 ==> l.max_segment_id == 0
            &&& l.segments@.len() > 0 ==> l.max_segment_id == l.segments@.last().0
        },
{
    let mut logs: Vec<(u64, String)> = Vec::new();
    let mut segments: Vec<(u64, String)> = Vec::new();
    let mut i: usize = 0;
    while i < names.len()
        invariant
            i <= names.len(),
            entry_ids_ascending(logs@),
            entry_ids_ascending(segments@),
            forall|j: int| 0 <= j < i ==> classify_spec(encode_utf8((#[trigger] names@[j])@), log_suffix.spec_bytes(), data_suffix.spec_bytes()) is Some,
            forall|x: u64| #[trigger] has_id(logs@, x) <==> exists|j: int| 0 <= j < i
                && classify_spec(encode_utf8((#[trigger] names@[j])@), log_suffix.spec_bytes(), data_suffix.spec_bytes())
                    == Some(FileKind::Log(x)),
            forall|x: u64| #[trigger] has_id(segments@, x) <==> exists|j: int| 0 <= j < i
                && classify_spec(encode_utf8((#[trigger] names@[j])@), log_suffix.spec_bytes(), data_suffix.spec_bytes())
                    == Some(FileKind::Segment(x)),
            forall|x: int| 0 <= x < logs@.len() ==> exists|j: int| 0 <= j < i
                && (#[trigger] names@[j])@ == (#[trigger] logs@[x]).1@
                && classify_spec(encode_utf8(names@[j]@), log_suffix.spec_bytes(), data_suffix.spec_bytes())
                    == Some(FileKind::Log(logs@[x].0)),
            forall|x: int| 0 <= x < segments@.len() ==> exists|j: int| 0 <= j < i
                && (#[trigger] names@[j])@ == (#[trigger] segments@[x]).1@
                && classify_spec(encode_utf8(names@[j]@), log_suffix.spec_bytes(), data_suffix.spec_bytes())
                    == Some(FileKind::Segment(segments@[x].0)),
        decreases names.len() - i,
    {
        let name = names[i].as_str();
        let ghost c = classify_spec(encode_utf8(names@[i as int]@), log_suffix.spec_bytes(), data_suffix.spec_bytes());
        let ghost logs0 = logs@;
        let ghost segments0 = segments@;
        assert(name.spec_bytes() == encode_utf8(names@[i as int]@));
        match classify_file_name(name, log_suffix, data_suffix) {
            Err(e) => {
                return Err(e);
            },
            Ok(FileKind::Log(id)) => {
                insert_entry(&mut logs, id, name);
            },
            Ok(FileKind::Segment(id)) => {
                insert_entry(&mut segments, id, name);
            },
            Ok(FileKind::Other) => {},
        }
        proof {
            assert forall|x: u64| #[trigger] has_id(logs@, x) <==> exists|j: int| 0 <= j < i + 1
                && classify_spec(encode_utf8((#[trigger] names@[j])@), log_suffix.spec_bytes(), data_suffix.spec_bytes())
                    == Some(FileKind::Log(x)) by {
                if c == Some(FileKind::Log(x)) {
                    assert(names@[i as int] == names@[i as int]);
                }
            }
            assert forall|x: u64| #[trigger] has_id(segments@, x) <==> exists|j: int| 0 <= j < i + 1
                && classify_spec(encode_utf8((#[trigger] names@[j])@), log_suffix.spec_bytes(), data_suffix.spec_bytes())
                    == Some(FileKind::Segment(x)) by {
                if c == Some(FileKind::Segment(x)) {
                    assert(names@[i as int] == names@[i as int]);
                }
            }
            assert forall|x: int| 0 <= x < logs@.len() implies exists|j: int| 0 <= j < i + 1
                && (#[trigger] names@[j])@ == (#[trigger] logs@[x]).1@
                && classify_spec(encode_utf8(names@[j]@), log_suffix.spec_bytes(), data_suffix.spec_bytes())
                    == Some(FileKind::Log(logs@[x].0)) by {
                if logs0.contains(logs@[x]) {
                    let y = choose|y: int| 0 <= y < logs0.len() && logs0[y] == logs@[x];
                    assert(logs0[y] == logs@[x]);
                } else {
                    assert(names@[i as int]@ == logs@[x].1@);
                }
            }
            assert forall|x: int| 0 <= x < segments@.len() implies exists|j: int| 0 <= j < i + 1
                && (#[trigger] names@[j])@ == (#[trigger] segments@[x]).1@
                && classify_spec(encode_utf8(names@[j]@), log_suffix.spec_bytes(), data_suffix.spec_bytes())
                    == Some(FileKind::Segment(segments@[x].0)) by {
                if segments0.contains(segments@[x]) {
                    let y = choose|y: int| 0 <= y < segments0.len() && segments0[y] == segments@[x];
                    assert(segments0[y] == segments@[x]);
                } else {
                    assert(names@[i as int]@ == segments@[x].1@);
                }
            }
        }
        i = i + 1;
    }
    let max_segment_id: u64 = if segments.len() > 0 {
        segments[segments.len() - 1].0
    } else {
        0
    };
    Ok(DirListing { logs, segments, max_segment_id })
}

/// The suffix of temporary segment files, `tmp`.
pub open spec fn tmp_suffix() -> Seq<u8> {
    seq![116u8, 109u8, 112u8]
}

/// A temporary segment file, `<id>.tmp`, is neither a log nor a segment, so
/// a half-written segment is never read back after a crash.
pub proof fn lemma_temp_files_ignored(id: Seq<u8>, log_suffix: Seq<u8>, data_suffix: Seq<u8>)
    requires
        log_suffix != tmp_suffix(),
        data_suffix != tmp_suffix(),
    ensures
        classify_spec(id + seq![DOT] + tmp_suffix(), log_suffix, data_suffix) == Some(FileKind::Other),
{
    let name = id + seq![DOT] + tmp_suffix();
    let n = id.len() as int;
    assert(name[n + 3] == 112u8 && name[n + 2] == 109u8 && name[n + 1] == 116u8 && name[n] == DOT);
    assert(last_dot_below(name, n + 4) == last_dot_below(name, n + 3));
    assert(last_dot_below(name, n + 3) == last_dot_below(name, n + 2));
    assert(last_dot_below(name, n + 2) == last_dot_below(name, n + 1));
    assert(last_dot_below(name, n + 1) == Some(n));
    assert(name.subrange(n + 1, name.len() as int) == tmp_suffix());
}

} // verus!
