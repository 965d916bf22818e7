//! The record grammar and the record parser.  A record is
//! `<key>;<value>\n`: the key is any byte sequence free of the delimiter and
//! the terminator, the value is a decimal number with exactly one fractional
//! digit.  Parsing a chunk either yields every record in it or fails fast on
//! the first malformed record.

use crate::decimal::{parse_tenths, spec_parse_tenths};
use crate::error::{MalformedKind, MalformedRecord, RecordFailure};
use vstd::prelude::*;
use vstd::slice::{slice_subrange, slice_to_vec};

verus! {

/// The record terminator byte: a newline.
pub const TERMINATOR: u8 = 0x0a;

/// The key/value delimiter byte: a semicolon.
pub const DELIMITER: u8 = 0x3b;

/// Index of the first occurrence of `needle` in `data[from..to]`.
pub open spec fn first_index_of(data: Seq<u8>, from: int, to: int, needle: u8) -> Option<int>
    decreases to - from,
{
    if from >= to {
        None
    } else if data[from] == needle {
        Some(from)
    } else {
        first_index_of(data, from + 1, to, needle)
    }
}

pub proof fn lemma_first_index_of_props(data: Seq<u8>, from: int, to: int, needle: u8)
    requires
        from <= to,
    ensures
        (match first_index_of(data, from, to, needle) {
            Some(t) => from <= t < to && data[t] == needle && forall|j: int|
                from <= j < t ==> data[j] != needle,
            None => forall|j: int| from <= j < to ==> data[j] != needle,
        }),
    decreases to - from,
{
    if from < to && data[from] != needle {
        lemma_first_index_of_props(data, from + 1, to, needle);
    }
}

pub proof fn lemma_first_index_of_found(data: Seq<u8>, from: int, to: int, needle: u8, t: int)
    requires
        from <= t < to,
        data[t] == needle,
        forall|j: int| from <= j < t ==> data[j] != needle,
    ensures
        first_index_of(data, from, to, needle) == Some(t),
    decreases t - from,
{
    if from < t {
        lemma_first_index_of_found(data, from + 1, to, needle, t);
    }
}

pub proof fn lemma_first_index_of_none(data: Seq<u8>, from: int, to: int, needle: u8)
    requires
        from <= to,
        forall|j: int| from <= j < to ==> data[j] != needle,
    ensures
        first_index_of(data, from, to, needle) is None,
    decreases to - from,
{
    if from < to {
        lemma_first_index_of_none(data, from + 1, to, needle);
    }
}

/// One record starting at `pos` within `data[..end]`: on success, its key,
/// its value in tenths, and the position just past its terminator.
pub open spec fn record_step(data: Seq<u8>, pos: int, end: int) -> Result<
    (Seq<u8>, int, int),
    RecordFailure,
> {
    match first_index_of(data, pos, end, TERMINATOR) {
        None => Err(
            RecordFailure {
                kind: MalformedKind::MissingTerminator,
                offset: pos,
                bytes: data.subrange(pos, end),
            },
        ),
        Some(t) => match first_index_of(data, pos, t, DELIMITER) {
            None => Err(
                RecordFailure {
                    kind: MalformedKind::MissingDelimiter,
                    offset: pos,
                    bytes: data.subrange(pos, t),
                },
            ),
            Some(d) => match spec_parse_tenths(data.subrange(d + 1, t)) {
                None => Err(
                    RecordFailure {
                        kind: MalformedKind::BadNumber,
                        offset: d + 1,
                        bytes: data.subrange(d + 1, t),
                    },
                ),
                Some(v) => Ok((data.subrange(pos, d), v, t + 1)),
            },
        },
    }
}

/// Every record of `data[pos..end]`, in order, or the first failure.
pub open spec fn chunk_records(data: Seq<u8>, pos: int, end: int) -> Result<
    Seq<(Seq<u8>, int)>,
    RecordFailure,
>
    recommends
        0 <= pos <= end <= data.len(),
    decreases end - pos,
        via chunk_records_decreases
{
    if pos >= end {
        Ok(Seq::empty())
    } else {
        match record_step(data, pos, end) {
            Err(f) => Err(f),
            Ok(rec) => match chunk_records(data, rec.2, end) {
                Err(f) => Err(f),
                Ok(rest) => Ok(seq![(rec.0, rec.1)] + rest),
            },
        }
    }
}

#[via_fn]
proof fn chunk_records_decreases(data: Seq<u8>, pos: int, end: int) {
    if pos < end {
        lemma_first_index_of_props(data, pos, end, TERMINATOR);
    }
}

/// A successful step always lands strictly past `pos` and no further than
/// `end`.
pub proof fn lemma_record_step_ok_bounds(data: Seq<u8>, pos: int, end: int)
    requires
        pos < end,
    ensures
        (record_step(data, pos, end) matches Ok(rec) ==> pos < rec.2 <= end),
{
    lemma_first_index_of_props(data, pos, end, TERMINATOR);
}

/// The records of a successful parse; an empty sequence otherwise.
pub open spec fn ok_records(r: Result<Seq<(Seq<u8>, int)>, RecordFailure>) -> Seq<(Seq<u8>, int)> {
    match r {
        Ok(rs) => rs,
        Err(_) => Seq::empty(),
    }
}

/// Parsing a range is parsing its two halves whenever the cut is
/// record-aligned: the records concatenate, and a failure in either half is
/// the failure of the whole.  No record ever crosses an aligned cut.
pub proof fn lemma_aligned_cut_concat(data: Seq<u8>, pos: int, cut: int, end: int)
    requires
        0 <= pos <= cut <= end <= data.len(),
        cut == pos || cut == end || data[cut - 1] == TERMINATOR,
    ensures
        (match (chunk_records(data, pos, cut), chunk_records(data, cut, end)) {
            (Ok(a), Ok(b)) => chunk_records(data, pos, end) == Ok::<_, RecordFailure>(a + b),
            (Err(f), _) => chunk_records(data, pos, end) == Err::<Seq<(Seq<u8>, int)>, _>(f),
            (_, Err(f)) => chunk_records(data, pos, end) == Err::<Seq<(Seq<u8>, int)>, _>(f),
        }),
    decreases cut - pos,
{
    if cut == end {
        match chunk_records(data, pos, cut) {
            Ok(a) => {
                assert(chunk_records(data, cut, end) == Ok::<_, RecordFailure>(
                    Seq::<(Seq<u8>, int)>::empty(),
                ));
                assert(a + Seq::<(Seq<u8>, int)>::empty() =~= a);
            },
            Err(_) => {},
        }
    } else if cut == pos {
        match chunk_records(data, cut, end) {
            Ok(b) => {
                assert(Seq::<(Seq<u8>, int)>::empty() + b =~= b);
            },
            Err(_) => {},
        }
    } else {
        // pos < cut < end and data[cut - 1] is a terminator, so the first
        // record's terminator search succeeds within the left half and the
        // step is the same in the whole range.
        lemma_first_index_of_props(data, pos, cut, TERMINATOR);
        match first_index_of(data, pos, cut, TERMINATOR) {
            None => {
                assert(data[cut - 1] == TERMINATOR);
                assert(false);
            },
            Some(t) => {
                lemma_first_index_of_found(data, pos, end, TERMINATOR, t);
                assert(record_step(data, pos, cut) == record_step(data, pos, end));
                match record_step(data, pos, cut) {
                    Err(_) => {},
                    Ok(rec) => {
                        lemma_record_step_ok_bounds(data, pos, cut);
                        lemma_aligned_cut_concat(data, rec.2, cut, end);
                        match (chunk_records(data, rec.2, cut), chunk_records(data, cut, end)) {
                            (Ok(a1), Ok(b)) => {
                                assert((seq![(rec.0, rec.1)] + a1) + b =~= seq![(rec.0, rec.1)] + (
                                a1 + b));
                            },
                            (Err(_), _) => {},
                            (_, Err(_)) => {},
                        }
                    },
                }
            },
        }
    }
}

/// Relies on memchr::memchr: returns the index of the first occurrence of
/// `needle` in `haystack`, or `None` when it does not occur.
#[verifier::external_body]
pub(crate) fn find_byte(haystack: &[u8], needle: u8) -> (r: Option<usize>)
    ensures
        (match r {
            Some(i) => i < haystack@.len() && haystack@[i as int] == needle && forall|j: int|
                0 <= j < i ==> haystack@[j] != needle,
            None => forall|j: int| 0 <= j < haystack@.len() ==> haystack@[j] != needle,
        }),
{
    memchr::memchr(needle, haystack)
}

/// Position of the last terminator in `bytes`, found by scanning backwards.
pub fn find_new_line_pos(bytes: &[u8]) -> (r: Option<usize>)
    ensures
        (match r {
            Some(i) => i < bytes@.len() && bytes@[i as int] == TERMINATOR && forall|j: int|
                i < j < bytes@.len() ==> bytes@[j] != TERMINATOR,
            None => forall|j: int| 0 <= j < bytes@.len() ==> bytes@[j] != TERMINATOR,
        }),
{
    let mut i: usize = bytes.len();
    while i > 0
        invariant
            i <= bytes@.len(),
            forall|j: int| i <= j < bytes@.len() ==> bytes@[j] != TERMINATOR,
        decreases i,
    {
        i = i - 1;
        if bytes[i] == TERMINATOR {
            return Some(i);
        }
    }
    None
}

/// Parse the record starting at `pos` within `data[..end]`.  On success the
/// key is returned as an owned copy together with the value in tenths and
/// the position just past the record's terminator.
pub fn parse_record(data: &[u8], pos: usize, end: usize) -> (r: Result<
    (Vec<u8>, i64, usize),
    MalformedRecord,
>)
    requires
        pos < end,
        end <= data@.len(),
    ensures
        (match record_step(data@, pos as int, end as int) {
            Ok(rec) => r matches Ok(t) && t.0@ == rec.0 && t.1 as int == rec.1 && t.2 as int
                == rec.2 && pos < rec.2 <= end,
            Err(f) => r matches Err(e) && e.spec_failure() == f,
        }),
{
    let ghost dv = data@;
    let tail = slice_subrange(data, pos, end);
    match find_byte(tail, TERMINATOR) {
        None => {
            proof {
                assert forall|j: int| pos <= j < end implies dv[j] != TERMINATOR by {
                    assert(dv[j] == tail@[j - pos]);
                };
                lemma_first_index_of_none(dv, pos as int, end as int, TERMINATOR);
            }
            Err(
                MalformedRecord {
                    kind: MalformedKind::MissingTerminator,
                    offset: pos,
                    bytes: slice_to_vec(tail),
                },
            )
        },
        Some(rel) => {
            let t: usize = pos + rel;
            proof {
                assert(dv[t as int] == tail@[rel as int]);
                assert forall|j: int| pos <= j < t implies dv[j] != TERMINATOR by {
                    assert(dv[j] == tail@[j - pos]);
                };
                lemma_first_index_of_found(dv, pos as int, end as int, TERMINATOR, t as int);
            }
            let line = slice_subrange(data, pos, t);
            match find_byte(line, DELIMITER) {
                None => {
                    proof {
                        assert forall|j: int| pos <= j < t implies dv[j] != DELIMITER by {
                            assert(dv[j] == line@[j - pos]);
                        };
                        lemma_first_index_of_none(dv, pos as int, t as int, DELIMITER);
                    }
                    Err(
                        MalformedRecord {
                            kind: MalformedKind::MissingDelimiter,
                            offset: pos,
                            bytes: slice_to_vec(line),
                        },
                    )
                },
                Some(drel) => {
                    let d: usize = pos + drel;
                    proof {
                        assert(dv[d as int] == line@[drel as int]);
                        assert forall|j: int| pos <= j < d implies dv[j] != DELIMITER by {
                            assert(dv[j] == line@[j - pos]);
                        };
                        lemma_first_index_of_found(dv, pos as int, t as int, DELIMITER, d as int);
                    }
                    let value_bytes = slice_subrange(data, d + 1, t);
                    match parse_tenths(value_bytes) {
                        None => Err(
                            MalformedRecord {
                                kind: MalformedKind::BadNumber,
                                offset: d + 1,
                                bytes: slice_to_vec(value_bytes),
                            },
                        ),
                        Some(v) => {
                            let key = slice_to_vec(slice_subrange(data, pos, d));
                            Ok((key, v, t + 1))
                        },
                    }
                },
            }
        },
    }
}

} // verus!
