//! Engine-wide laws.  The central one is merge invariance: for any valid
//! record-aligned partition of the input, the merged per-chunk aggregates
//! equal the aggregate of the whole input, so the finalized result does not
//! depend on how the input was chunked.

use crate::engine::{
    lemma_summaries_map_index, spec_key_order, spec_summaries, summaries_map, summary_keys,
    summary_keys_unique, StationValues,
};
use crate::error::RecordFailure;
use crate::records::{chunk_records, lemma_aligned_cut_concat, ok_records, TERMINATOR};
use crate::stats::{agg_of_records, combine_maps, lemma_agg_concat, AggModel};
use vstd::prelude::*;

verus! {

/// `bounds` cuts `[0, N)` into consecutive chunks `[bounds[i], bounds[i+1])`
/// without ever splitting a record: every interior cut lies immediately
/// after a terminator (or at the very start).
pub open spec fn valid_bounds(data: Seq<u8>, bounds: Seq<int>) -> bool {
    &&& bounds.len() >= 2
    &&& bounds[0] == 0
    &&& bounds.last() == data.len()
    &&& (forall|i: int| 0 <= i < bounds.len() - 1 ==> #[trigger] bounds[i] <= bounds[i + 1])
    &&& (forall|i: int|
        1 <= i < bounds.len() - 1 ==> #[trigger] bounds[i] == 0 || data[bounds[i] - 1]
            == TERMINATOR)
}

/// The merged aggregate of the chunks' partial aggregates, in chunk order.
pub open spec fn partials_combined(data: Seq<u8>, bounds: Seq<int>) -> Map<Seq<u8>, AggModel>
    decreases bounds.len(),
{
    if bounds.len() <= 1 {
        Map::empty()
    } else {
        combine_maps(
            partials_combined(data, bounds.drop_last()),
            agg_of_records(
                ok_records(chunk_records(data, bounds[bounds.len() - 2], bounds.last())),
            ),
        )
    }
}

proof fn lemma_bounds_mono(bounds: Seq<int>, i: int, j: int)
    requires
        forall|k: int| 0 <= k < bounds.len() - 1 ==> #[trigger] bounds[k] <= bounds[k + 1],
        0 <= i <= j < bounds.len(),
    ensures
        bounds[i] <= bounds[j],
    decreases j - i,
{
    if i < j {
        lemma_bounds_mono(bounds, i, j - 1);
        assert(bounds[j - 1] <= bounds[j]);
    }
}

/// Every chunk of an aligned prefix parses, the prefix as a whole parses,
/// and the merged partial aggregates equal the prefix's aggregate.  Here the
/// final cut too must be aligned (or at the very start).
proof fn lemma_partition_prefix(data: Seq<u8>, bounds: Seq<int>)
    requires
        bounds.len() >= 1,
        bounds[0] == 0,
        bounds.last() <= data.len(),
        forall|i: int| 0 <= i < bounds.len() - 1 ==> #[trigger] bounds[i] <= bounds[i + 1],
        forall|i: int|
            1 <= i < bounds.len() ==> #[trigger] bounds[i] == 0 || data[bounds[i] - 1]
                == TERMINATOR,
        forall|i: int|
            0 <= i < bounds.len() - 1 ==> #[trigger] chunk_records(data, bounds[i], bounds[i + 1])
                is Ok,
    ensures
        chunk_records(data, 0, bounds.last()) is Ok,
        partials_combined(data, bounds) == agg_of_records(
            ok_records(chunk_records(data, 0, bounds.last())),
        ),
    decreases bounds.len(),
{
    if bounds.len() == 1 {
        assert(bounds.last() == 0);
        assert(partials_combined(data, bounds) =~= agg_of_records(
            ok_records(chunk_records(data, 0, 0)),
        ));
    } else {
        let bp = bounds.drop_last();
        let cut = bounds[bounds.len() - 2];
        let last = bounds.last();
        assert(forall|i: int| 0 <= i < bp.len() ==> bp[i] == bounds[i]);
        lemma_bounds_mono(bounds, 0, bounds.len() - 2);
        assert(0 <= cut);
        assert(cut <= last);
        lemma_partition_prefix(data, bp);
        assert(bp.last() == cut);
        assert(cut == 0 || data[cut - 1] == TERMINATOR);
        assert(chunk_records(data, cut, last) is Ok);
        lemma_aligned_cut_concat(data, 0, cut, last);
        let a = ok_records(chunk_records(data, 0, cut));
        let c = ok_records(chunk_records(data, cut, last));
        assert(chunk_records(data, 0, last) == Ok::<_, RecordFailure>(a + c));
        lemma_agg_concat(a, c);
    }
}

/// Two finalized entry lists with the same key order and the same mapping
/// are identical, entry by entry.
pub proof fn lemma_output_determined(
    out1: Seq<(Vec<u8>, StationValues)>,
    out2: Seq<(Vec<u8>, StationValues)>,
)
    requires
        summary_keys(out1) == summary_keys(out2),
        summaries_map(out1) == summaries_map(out2),
        summary_keys_unique(out1),
    ensures
        out1.len() == out2.len(),
        forall|i: int|
            0 <= i < out1.len() ==> (#[trigger] out1[i]).0@ == out2[i].0@ && out1[i].1
                == out2[i].1,
{
    assert(summary_keys(out1).len() == out1.len());
    assert(summary_keys(out2).len() == out2.len());
    assert(summary_keys_unique(out2)) by {
        assert(forall|i: int| 0 <= i < out2.len() ==> (#[trigger] out2[i]).0@ == summary_keys(
            out2,
        )[i]);
        assert(forall|i: int| 0 <= i < out1.len() ==> (#[trigger] out1[i]).0@ == summary_keys(
            out1,
        )[i]);
    };
    assert forall|i: int|
        0 <= i < out1.len() implies (#[trigger] out1[i]).0@ == out2[i].0@ && out1[i].1
        == out2[i].1 by {
        assert(summary_keys(out1)[i] == out1[i].0@);
        assert(summary_keys(out2)[i] == out2[i].0@);
        lemma_summaries_map_index(out1, i);
        lemma_summaries_map_index(out2, i);
    };
}

/// Idempotence: the engine's contract pins a run's result — its mapping and
/// its entry order — to a function of the input bytes alone, so two runs
/// over identical input yield bit-identical output, whatever the worker
/// counts.
pub proof fn lemma_idempotence(
    data: Seq<u8>,
    out1: Seq<(Vec<u8>, StationValues)>,
    out2: Seq<(Vec<u8>, StationValues)>,
)
    requires
        spec_summaries(data) == Ok::<_, RecordFailure>(summaries_map(out1)),
        spec_summaries(data) == Ok::<_, RecordFailure>(summaries_map(out2)),
        summary_keys(out1) == spec_key_order(data),
        summary_keys(out2) == spec_key_order(data),
        summary_keys_unique(out1),
    ensures
        out1.len() == out2.len(),
        forall|i: int|
            0 <= i < out1.len() ==> (#[trigger] out1[i]).0@ == out2[i].0@ && out1[i].1
                == out2[i].1,
{
    lemma_output_determined(out1, out2);
}

/// Merge invariance: for any valid record-aligned partition of the input
/// whose chunks all parse, the whole input parses and the merged per-chunk
/// aggregates equal the aggregate of the whole input.  The finalized result
/// of a partitioned run is therefore identical to the single-chunk result.
pub proof fn lemma_merge_invariance(data: Seq<u8>, bounds: Seq<int>)
    requires
        valid_bounds(data, bounds),
        forall|i: int|
            0 <= i < bounds.len() - 1 ==> #[trigger] chunk_records(data, bounds[i], bounds[i + 1])
                is Ok,
    ensures
        chunk_records(data, 0, data.len() as int) is Ok,
        partials_combined(data, bounds) == agg_of_records(
            ok_records(chunk_records(data, 0, data.len() as int)),
        ),
{
    let bp = bounds.drop_last();
    let cut = bounds[bounds.len() - 2];
    let last = bounds.last();
    assert(forall|i: int| 0 <= i < bp.len() ==> bp[i] == bounds[i]);
    lemma_bounds_mono(bounds, 0, bounds.len() - 2);
    lemma_partition_prefix(data, bp);
    assert(bp.last() == cut);
    assert(cut == 0 || data[cut - 1] == TERMINATOR);
    assert(chunk_records(data, cut, last) is Ok);
    lemma_aligned_cut_concat(data, 0, cut, last);
    let a = ok_records(chunk_records(data, 0, cut));
    let c = ok_records(chunk_records(data, cut, last));
    assert(chunk_records(data, 0, last) == Ok::<_, RecordFailure>(a + c));
    lemma_agg_concat(a, c);
}

} // verus!
