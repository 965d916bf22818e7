//! Parser for a rendered summary mapping, as other tools print it:
//! `{name=min/mean/max, name=min/mean/max, ...}`, one brace pair around
//! comma-separated entries, names trimmed of surrounding whitespace, each
//! figure a decimal with exactly one fractional digit.

use crate::decimal::spec_parse_tenths;
use crate::decimal::parse_tenths;
use crate::engine::StationValues;
use crate::records::{
    find_byte, first_index_of, lemma_first_index_of_found, lemma_first_index_of_none,
    lemma_first_index_of_props,
};
use vstd::prelude::*;
use vstd::slice::{slice_subrange, slice_to_vec};

verus! {

pub const LBRACE: u8 = 0x7b;

pub const RBRACE: u8 = 0x7d;

pub const COMMA: u8 = 0x2c;

pub const EQUALS: u8 = 0x3d;

pub const SLASH: u8 = 0x2f;

/// Whitespace around names and around the whole text.
pub open spec fn is_summary_ws(b: u8) -> bool {
    b == 0x20 || b == 0x09 || b == 0x0a || b == 0x0d
}

/// First index in `[pos, end)` holding a non-whitespace byte, or `end`.
pub open spec fn skip_ws(data: Seq<u8>, pos: int, end: int) -> int
    decreases end - pos,
{
    if pos >= end {
        end
    } else if is_summary_ws(data[pos]) {
        skip_ws(data, pos + 1, end)
    } else {
        pos
    }
}

/// One past the last index in `[pos, end)` holding a non-whitespace byte,
/// or `pos`.
pub open spec fn rskip_ws(data: Seq<u8>, pos: int, end: int) -> int
    decreases end - pos,
{
    if pos >= end {
        pos
    } else if is_summary_ws(data[end - 1]) {
        rskip_ws(data, pos, end - 1)
    } else {
        end
    }
}

/// One entry `name=min/mean/max` occupying exactly `[pos, stop)`, with the
/// name trimmed; the triple is ordered (min, max, mean).
pub open spec fn entry_of(data: Seq<u8>, pos: int, stop: int) -> Option<(Seq<u8>, (int, int, int))> {
    match first_index_of(data, pos, stop, EQUALS) {
        None => None,
        Some(eq) => {
            let nlo = skip_ws(data, pos, eq);
            let nhi = rskip_ws(data, nlo, eq);
            match first_index_of(data, eq + 1, stop, SLASH) {
                None => None,
                Some(s1) => match first_index_of(data, s1 + 1, stop, SLASH) {
                    None => None,
                    Some(s2) => match (
                        spec_parse_tenths(data.subrange(eq + 1, s1)),
                        spec_parse_tenths(data.subrange(s1 + 1, s2)),
                        spec_parse_tenths(data.subrange(s2 + 1, stop)),
                    ) {
                        (Some(v1), Some(v2), Some(v3)) => Some(
                            (data.subrange(nlo, nhi), (v1, v3, v2)),
                        ),
                        _ => None,
                    },
                },
            }
        },
    }
}

/// The comma-separated entries filling `[pos, end)`, or nothing if any part
/// of the text does not parse.
pub open spec fn entries_from(data: Seq<u8>, pos: int, end: int) -> Option<
    Seq<(Seq<u8>, (int, int, int))>,
>
    recommends
        0 <= pos <= end <= data.len(),
    decreases end - pos,
        via entries_from_decreases
{
    match first_index_of(data, pos, end, COMMA) {
        None => match entry_of(data, pos, end) {
            None => None,
            Some(e) => Some(seq![e]),
        },
        Some(stop) => match entry_of(data, pos, stop) {
            None => None,
            Some(e) => match entries_from(data, stop + 1, end) {
                None => None,
                Some(rest) => Some(seq![e] + rest),
            },
        },
    }
}

#[via_fn]
proof fn entries_from_decreases(data: Seq<u8>, pos: int, end: int) {
    if pos <= end {
        lemma_first_index_of_props(data, pos, end, COMMA);
    } else {
        // An inverted region holds no comma, so there is no recursive call.
        assert(first_index_of(data, pos, end, COMMA) is None);
    }
}

/// The mapping a rendered summary stands for: whitespace-trimmed text, one
/// brace pair, comma-separated entries.
pub open spec fn spec_parse_summary(data: Seq<u8>) -> Option<Seq<(Seq<u8>, (int, int, int))>> {
    let lo = skip_ws(data, 0, data.len() as int);
    let hi = rskip_ws(data, lo, data.len() as int);
    if hi - lo >= 2 && data[lo] == LBRACE && data[hi - 1] == RBRACE {
        entries_from(data, lo + 1, hi - 1)
    } else {
        None
    }
}

fn is_ws_byte(b: u8) -> (r: bool)
    ensures
        r == is_summary_ws(b),
{
    b == 0x20 || b == 0x09 || b == 0x0a || b == 0x0d
}

fn skip_ws_exec(data: &[u8], pos: usize, end: usize) -> (r: usize)
    requires
        pos <= end,
        end <= data@.len(),
    ensures
        r == skip_ws(data@, pos as int, end as int),
        pos <= r <= end,
{
    let mut i: usize = pos;
    while i < end && is_ws_byte(data[i])
        invariant
            pos <= i <= end,
            end <= data@.len(),
            skip_ws(data@, pos as int, end as int) == skip_ws(data@, i as int, end as int),
        decreases end - i,
    {
        i = i + 1;
    }
    i
}

fn rskip_ws_exec(data: &[u8], pos: usize, end: usize) -> (r: usize)
    requires
        pos <= end,
        end <= data@.len(),
    ensures
        r == rskip_ws(data@, pos as int, end as int),
        pos <= r <= end,
{
    let mut i: usize = end;
    while i > pos && is_ws_byte(data[i - 1])
        invariant
            pos <= i <= end,
            end <= data@.len(),
            rskip_ws(data@, pos as int, end as int) == rskip_ws(data@, pos as int, i as int),
        decreases i,
    {
        i = i - 1;
    }
    i
}

/// Find `needle` in `data[pos..stop]`, as an absolute index.
fn find_byte_in(data: &[u8], pos: usize, stop: usize, needle: u8) -> (r: Option<usize>)
    requires
        pos <= stop,
        stop <= data@.len(),
    ensures
        (match r {
            Some(i) => pos <= i < stop && first_index_of(data@, pos as int, stop as int, needle)
                == Some(i as int),
            None => first_index_of(data@, pos as int, stop as int, needle) is None,
        }),
{
    let region = slice_subrange(data, pos, stop);
    match find_byte(region, needle) {
        None => {
            proof {
                assert forall|j: int| pos <= j < stop implies data@[j] != needle by {
                    assert(data@[j] == region@[j - pos]);
                };
                lemma_first_index_of_none(data@, pos as int, stop as int, needle);
            }
            None
        },
        Some(rel) => {
            proof {
                assert(data@[pos + rel] == region@[rel as int]);
                assert forall|j: int| pos <= j < pos + rel implies data@[j] != needle by {
                    assert(data@[j] == region@[j - pos]);
                };
                lemma_first_index_of_found(
                    data@,
                    pos as int,
                    stop as int,
                    needle,
                    pos + rel as int,
                );
            }
            Some(pos + rel)
        },
    }
}

/// Parse one entry occupying exactly `data[pos..stop]`.
fn parse_entry(data: &[u8], pos: usize, stop: usize) -> (r: Option<(Vec<u8>, StationValues)>)
    requires
        pos <= stop,
        stop <= data@.len(),
    ensures
        (match r {
            Some(e) => entry_of(data@, pos as int, stop as int) matches Some(se) && e.0@ == se.0
                && (e.1.min as int, e.1.max as int, e.1.mean as int) == se.1,
            None => entry_of(data@, pos as int, stop as int) is None,
        }),
{
    let eq: usize = match find_byte_in(data, pos, stop, EQUALS) {
        None => {
            return None;
        },
        Some(i) => i,
    };
    let nlo: usize = skip_ws_exec(data, pos, eq);
    let nhi: usize = rskip_ws_exec(data, nlo, eq);
    let s1: usize = match find_byte_in(data, eq + 1, stop, SLASH) {
        None => {
            return None;
        },
        Some(i) => i,
    };
    let s2: usize = match find_byte_in(data, s1 + 1, stop, SLASH) {
        None => {
            return None;
        },
        Some(i) => i,
    };
    let v1: i64 = match parse_tenths(slice_subrange(data, eq + 1, s1)) {
        None => {
            return None;
        },
        Some(v) => v,
    };
    let v2: i64 = match parse_tenths(slice_subrange(data, s1 + 1, s2)) {
        None => {
            return None;
        },
        Some(v) => v,
    };
    let v3: i64 = match parse_tenths(slice_subrange(data, s2 + 1, stop)) {
        None => {
            return None;
        },
        Some(v) => v,
    };
    let name = slice_to_vec(slice_subrange(data, nlo, nhi));
    Some((name, StationValues { min: v1, max: v3, mean: v2 }))
}

/// Parse a rendered summary mapping.  Yields the entries in text order with
/// each name as raw bytes and each figure in tenths, or nothing if the text
/// does not match the format.
pub fn parse_summary(data: &[u8]) -> (r: Option<Vec<(Vec<u8>, StationValues)>>)
    ensures
        (match r {
            Some(out) => spec_parse_summary(data@) matches Some(es) && out@.len() == es.len()
                && forall|i: int|
                0 <= i < es.len() ==> (#[trigger] out@[i]).0@ == es[i].0 && (
                out@[i].1.min as int,
                out@[i].1.max as int,
                out@[i].1.mean as int,
                ) == es[i].1,
            None => spec_parse_summary(data@) is None,
        }),
{
    let n: usize = data.len();
    let lo: usize = skip_ws_exec(data, 0, n);
    let hi: usize = rskip_ws_exec(data, lo, n);
    if hi - lo < 2 {
        return None;
    }
    if data[lo] != LBRACE || data[hi - 1] != RBRACE {
        return None;
    }
    let mut pos: usize = lo + 1;
    let end: usize = hi - 1;
    let mut out: Vec<(Vec<u8>, StationValues)> = Vec::new();
    let ghost mut done: Seq<(Seq<u8>, (int, int, int))> = Seq::empty();
    loop
        invariant_except_break
            (match entries_from(data@, pos as int, end as int) {
                Some(rest) => entries_from(data@, (lo + 1) as int, end as int) == Some(done + rest),
                None => entries_from(data@, (lo + 1) as int, end as int) is None,
            }),
        invariant
            n == data@.len(),
            lo == skip_ws(data@, 0, n as int),
            hi == rskip_ws(data@, lo as int, n as int),
            lo + 2 <= hi <= n,
            data@[lo as int] == LBRACE,
            data@[hi - 1] == RBRACE,
            end == hi - 1,
            lo + 1 <= pos <= end,
            out@.len() == done.len(),
            forall|i: int|
                0 <= i < done.len() ==> (#[trigger] out@[i]).0@ == done[i].0 && (
                out@[i].1.min as int,
                out@[i].1.max as int,
                out@[i].1.mean as int,
                ) == done[i].1,
        ensures
            entries_from(data@, (lo + 1) as int, end as int) matches Some(es) && out@.len()
                == es.len() && (forall|i: int|
                0 <= i < es.len() ==> (#[trigger] out@[i]).0@ == es[i].0 && (
                out@[i].1.min as int,
                out@[i].1.max as int,
                out@[i].1.mean as int,
                ) == es[i].1),
        decreases end - pos,
    {
        let comma = find_byte_in(data, pos, end, COMMA);
        let stop: usize = match comma {
            None => end,
            Some(i) => i,
        };
        let e = match parse_entry(data, pos, stop) {
            None => {
                return None;
            },
            Some(e) => e,
        };
        let ghost se = (e.0@, (e.1.min as int, e.1.max as int, e.1.mean as int));
        let ghost dprev = done;
        let ghost outprev = out@;
        out.push(e);
        proof {
            done = dprev.push(se);
            assert(dprev + seq![se] =~= done);
            assert(forall|i: int| 0 <= i < outprev.len() ==> #[trigger] out@[i] == outprev[i]);
        }
        match comma {
            None => {
                proof {
                    assert(entries_from(data@, pos as int, end as int) == Some(seq![se]));
                    assert(entries_from(data@, (lo + 1) as int, end as int) == Some(
                        dprev + seq![se],
                    ));
                }
                break ;
            },
            Some(_) => {
                proof {
                    match entries_from(data@, (stop + 1) as int, end as int) {
                        Some(rest) => {
                            assert(entries_from(data@, pos as int, end as int) == Some(
                                seq![se] + rest,
                            ));
                            assert(dprev + (seq![se] + rest) =~= done + rest);
                        },
                        None => {
                            assert(entries_from(data@, pos as int, end as int) is None);
                        },
                    }
                }
                pos = stop + 1;
            },
        }
    }
    Some(out)
}

} // verus!
