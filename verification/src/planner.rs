//! The chunk planner: divide `[0, N)` into at most `workers` contiguous,
//! non-empty, record-aligned byte ranges.  Every range boundary except the
//! final one lands immediately after a terminator byte, so no record is ever
//! split across two ranges.

use crate::records::find_byte;
use vstd::arithmetic::div_mod::{lemma_div_is_ordered, lemma_fundamental_div_mod_converse};
use vstd::prelude::*;
use vstd::slice::slice_subrange;

verus! {

/// A half-open byte interval `[start, end)` handed to one worker.
#[derive(Clone, Copy, Debug, PartialEq, Eq, Structural)]
pub struct ChunkRange {
    pub start: usize,
    pub end: usize,
}

/// Plan at most `workers` chunks over `data`.  The chunks are contiguous,
/// non-empty, and cover `[0, N)` exactly; every chunk boundary except the
/// final one lies immediately after a `terminator` byte.  Empty input yields
/// no chunks.
pub fn plan_chunks(data: &[u8], workers: usize, terminator: u8) -> (r: Vec<ChunkRange>)
    requires
        1 <= workers,
    ensures
        data@.len() == 0 ==> r@.len() == 0,
        data@.len() > 0 ==> 1 <= r@.len() <= workers,
        r@.len() > 0 ==> r@[0].start == 0 && r@[r@.len() - 1].end == data@.len(),
        forall|j: int| 0 <= j < r@.len() ==> (#[trigger] r@[j]).start < r@[j].end,
        forall|j: int| 0 <= j < r@.len() ==> (#[trigger] r@[j]).end <= data@.len(),
        forall|j: int| 0 <= j < r@.len() - 1 ==> (#[trigger] r@[j]).end == r@[j + 1].start,
        forall|j: int|
            0 <= j < r@.len() - 1 ==> data@[(#[trigger] r@[j]).end - 1] == terminator,
{
    let n: usize = data.len();
    let mut ranges: Vec<ChunkRange> = Vec::new();
    if n == 0 {
        return ranges;
    }
    let mut start: usize = 0;
    let mut i: usize = 1;
    let mut exhausted: bool = false;
    while i < workers && !exhausted
        invariant
            1 <= i <= workers,
            0 <= start < n,
            n == data@.len(),
            n > 0,
            ranges@.len() <= i - 1,
            ranges@.len() == 0 ==> start == 0,
            ranges@.len() > 0 ==> ranges@[0].start == 0 && ranges@[ranges@.len() - 1].end
                == start,
            forall|j: int| 0 <= j < ranges@.len() ==> (#[trigger] ranges@[j]).start < ranges@[j].end,
            forall|j: int| 0 <= j < ranges@.len() ==> (#[trigger] ranges@[j]).end < n,
            forall|j: int|
                0 <= j < ranges@.len() - 1 ==> (#[trigger] ranges@[j]).end == ranges@[j + 1].start,
            forall|j: int|
                0 <= j < ranges@.len() ==> data@[(#[trigger] ranges@[j]).end - 1] == terminator,
        decreases workers - i,
    {
        proof {
            assert((i as int) * (n as int) <= (u64::MAX as int) * (u64::MAX as int))
                by (nonlinear_arith)
                requires
                    0 <= i as int <= u64::MAX as int,
                    0 <= n as int <= u64::MAX as int,
            ;
        }
        let prod: u128 = (i as u128) * (n as u128);
        let q: u128 = prod / (workers as u128);
        proof {
            let wi: int = workers as int;
            let ni: int = n as int;
            assert((i as int) * ni <= (wi - 1) * ni) by (nonlinear_arith)
                requires
                    i as int <= wi - 1,
                    ni >= 0,
            ;
            assert((wi - 1) * ni == wi * ni - ni) by (nonlinear_arith);
            lemma_div_is_ordered(prod as int, wi * ni - ni, wi);
            assert(wi * ni - 1 == wi * (ni - 1) + (wi - 1)) by (nonlinear_arith);
            lemma_fundamental_div_mod_converse(wi * ni - 1, wi, ni - 1, wi - 1);
            lemma_div_is_ordered(wi * ni - ni, wi * ni - 1, wi);
            assert(q as int <= ni - 1);
        }
        let target: usize = q as usize;
        if target > start {
            let region = slice_subrange(data, target, n);
            match find_byte(region, terminator) {
                Some(rel) => {
                    let endpos: usize = target + rel + 1;
                    proof {
                        assert(data@[endpos - 1] == region@[rel as int]);
                    }
                    if endpos < n {
                        let ghost rpre = ranges@;
                        ranges.push(ChunkRange { start: start, end: endpos });
                        proof {
                            assert(forall|j: int|
                                0 <= j < rpre.len() ==> #[trigger] ranges@[j] == rpre[j]);
                        }
                        start = endpos;
                    } else {
                        exhausted = true;
                    }
                },
                None => {
                    exhausted = true;
                },
            }
        }
        i = i + 1;
    }
    let ghost rpre = ranges@;
    ranges.push(ChunkRange { start: start, end: n });
    proof {
        assert(forall|j: int| 0 <= j < rpre.len() ==> #[trigger] ranges@[j] == rpre[j]);
    }
    ranges
}

} // verus!
