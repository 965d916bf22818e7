//! The aggregation engine: drive the record parser over one chunk into a
//! worker's mapping, merge partial mappings, and round the combined figures.
//! The finalized mapping is pinned to a function of the input bytes alone,
//! so a run is deterministic and independent of how the input was chunked.

use crate::decimal::{round_half_div, round_half_from_zero};
use crate::error::{MalformedRecord, RecordFailure};
use crate::planner::{plan_chunks, ChunkRange};
use crate::records::{
    chunk_records, lemma_aligned_cut_concat, ok_records, parse_record, TERMINATOR,
};
use crate::stats::{
    agg_of_records, combine_maps, fold_model, keys_after_fold, keys_of, lemma_agg_concat,
    lemma_combine_fold_step, lemma_combine_maps_empty, lemma_keys_after_fold_concat,
    lemma_keys_of_domain, lemma_sum_counts_nonneg, single_model, AggModel, AggregateState,
    WorkerResult,
};
use vstd::prelude::*;
use vstd::slice::slice_to_vec;

verus! {

/// Scan one chunk and fold every record in it into `result`.  On success the
/// result's mapping grows by exactly the chunk's aggregate; on a malformed
/// record the run fails with that record's failure and the partial result is
/// abandoned.
pub fn process_chunk(data: &[u8], range: ChunkRange, result: &mut WorkerResult) -> (r: Result<
    (),
    MalformedRecord,
>)
    requires
        range.start <= range.end,
        range.end <= data@.len(),
        old(result).wf(),
        old(result).total_count() + (range.end - range.start) <= u64::MAX,
    ensures
        (match chunk_records(data@, range.start as int, range.end as int) {
            Ok(rs) => r is Ok && final(result).wf() && final(result).as_map() == combine_maps(
                old(result).as_map(),
                agg_of_records(rs),
            ) && final(result).total_count() == old(result).total_count() + rs.len() && rs.len()
                <= range.end - range.start && keys_of(final(result).entries@) == keys_after_fold(
                keys_of(old(result).entries@),
                rs,
            ),
            Err(f) => r matches Err(e) && e.spec_failure() == f && final(result).wf(),
        }),
{
    let ghost m0 = result.as_map();
    let ghost t0 = result.total_count();
    let ghost k0 = keys_of(result.entries@);
    let mut pos: usize = range.start;
    let ghost mut done: Seq<(Seq<u8>, int)> = Seq::empty();
    proof {
        lemma_combine_maps_empty(m0);
        lemma_sum_counts_nonneg(result.entries@);
    }
    while pos < range.end
        invariant
            range.start <= pos <= range.end,
            range.end <= data@.len(),
            result.wf(),
            t0 >= 0,
            t0 + (range.end - range.start) <= u64::MAX,
            result.as_map() == combine_maps(m0, agg_of_records(done)),
            result.total_count() == t0 + done.len(),
            keys_of(result.entries@) == keys_after_fold(k0, done),
            done.len() <= pos - range.start,
            (match chunk_records(data@, pos as int, range.end as int) {
                Ok(rest) => chunk_records(data@, range.start as int, range.end as int)
                    == Ok::<_, RecordFailure>(done + rest),
                Err(f) => chunk_records(data@, range.start as int, range.end as int) == Err::<
                    Seq<(Seq<u8>, int)>,
                    _,
                >(f),
            }),
        decreases range.end - pos,
    {
        match parse_record(data, pos, range.end) {
            Err(e) => {
                return Err(e);
            },
            Ok((key, value, next)) => {
                let ghost rec = (key@, value as int);
                let ghost magg = agg_of_records(done);
                let ghost epre = result.entries@;
                result.add_record(key, value);
                proof {
                    lemma_keys_of_domain(epre, rec.0);
                    assert(done.push(rec).drop_last() =~= done);
                    assert(agg_of_records(done.push(rec)) == fold_model(
                        magg,
                        rec.0,
                        single_model(rec.1),
                    ));
                    lemma_combine_fold_step(m0, magg, rec.0, single_model(rec.1));
                    assert(match chunk_records(data@, next as int, range.end as int) {
                        Ok(rest) => chunk_records(data@, range.start as int, range.end as int)
                            == Ok::<_, RecordFailure>(done.push(rec) + rest),
                        Err(f) => chunk_records(data@, range.start as int, range.end as int)
                            == Err::<Seq<(Seq<u8>, int)>, _>(f),
                    }) by {
                        match chunk_records(data@, next as int, range.end as int) {
                            Ok(rest) => {
                                assert(chunk_records(data@, pos as int, range.end as int) == Ok::<
                                    _,
                                    RecordFailure,
                                >(seq![(rec.0, rec.1)] + rest));
                                assert(done + (seq![(rec.0, rec.1)] + rest) =~= done.push(rec)
                                    + rest);
                            },
                            Err(_) => {},
                        }
                    };
                    done = done.push(rec);
                }
                pos = next;
            },
        }
    }
    proof {
        assert(chunk_records(data@, pos as int, range.end as int) == Ok::<_, RecordFailure>(
            Seq::<(Seq<u8>, int)>::empty(),
        ));
        assert(done + Seq::<(Seq<u8>, int)>::empty() =~= done);
    }
    Ok(())
}

/// A key's finalized figures, each carrying one fractional digit (tenths):
/// the minimum, the maximum, and the mean rounded half away from zero.
#[derive(Clone, Copy, Debug, PartialEq, Eq, Structural)]
pub struct StationValues {
    pub min: i64,
    pub max: i64,
    pub mean: i64,
}

/// The finalized figures of one aggregate: minimum and maximum are already
/// tenths, so rounding them to one fractional digit leaves them unchanged;
/// the mean is the exact quotient rounded half away from zero.
pub open spec fn rounded_triple(m: AggModel) -> (int, int, int) {
    (m.min, m.max, round_half_from_zero(m.sum, m.count))
}

/// Pointwise finalization of an aggregate mapping.
pub open spec fn rounded_map(m: Map<Seq<u8>, AggModel>) -> Map<Seq<u8>, (int, int, int)> {
    Map::new(|k: Seq<u8>| m.contains_key(k), |k: Seq<u8>| rounded_triple(m[k]))
}

/// The mapping a finalized entry list stands for.
pub open spec fn summaries_map(s: Seq<(Vec<u8>, StationValues)>) -> Map<Seq<u8>, (int, int, int)>
    decreases s.len(),
{
    if s.len() == 0 {
        Map::empty()
    } else {
        summaries_map(s.drop_last()).insert(
            s.last().0@,
            (s.last().1.min as int, s.last().1.max as int, s.last().1.mean as int),
        )
    }
}

/// The keys of a finalized entry list, in order.
pub open spec fn summary_keys(s: Seq<(Vec<u8>, StationValues)>) -> Seq<Seq<u8>> {
    s.map_values(|e: (Vec<u8>, StationValues)| e.0@)
}

/// No key appears twice in a finalized entry list.
pub open spec fn summary_keys_unique(s: Seq<(Vec<u8>, StationValues)>) -> bool {
    forall|i: int, j: int| 0 <= i < j < s.len() ==> (#[trigger] s[i]).0@ != (#[trigger] s[j]).0@
}

/// With distinct keys, the mapping of a finalized entry list holds each
/// entry's figures under its key.
pub proof fn lemma_summaries_map_index(s: Seq<(Vec<u8>, StationValues)>, i: int)
    requires
        summary_keys_unique(s),
        0 <= i < s.len(),
    ensures
        summaries_map(s).contains_key(s[i].0@),
        summaries_map(s)[s[i].0@] == (s[i].1.min as int, s[i].1.max as int, s[i].1.mean as int),
    decreases s.len(),
{
    if i == s.len() - 1 {
    } else {
        assert(summary_keys_unique(s.drop_last())) by {
            assert(forall|p: int, q: int|
                0 <= p < q < s.len() - 1 ==> (#[trigger] s.drop_last()[p]).0@ != (
                #[trigger] s.drop_last()[q]).0@);
        };
        assert(s.drop_last()[i] == s[i]);
        lemma_summaries_map_index(s.drop_last(), i);
        assert(s[i].0@ != s.last().0@);
    }
}

/// The key order of the whole input's finalized mapping: every distinct key,
/// in order of first occurrence.
pub open spec fn spec_key_order(data: Seq<u8>) -> Seq<Seq<u8>> {
    keys_after_fold(Seq::empty(), ok_records(chunk_records(data, 0, data.len() as int)))
}

/// The finalized mapping of the whole input: what any run must produce.
pub open spec fn spec_summaries(data: Seq<u8>) -> Result<
    Map<Seq<u8>, (int, int, int)>,
    RecordFailure,
> {
    match chunk_records(data, 0, data.len() as int) {
        Ok(rs) => Ok(rounded_map(agg_of_records(rs))),
        Err(f) => Err(f),
    }
}

/// An entry list that rounds a state list pointwise stands for the rounded
/// mapping.
proof fn lemma_summaries_match(
    entries: Seq<(Vec<u8>, AggregateState)>,
    out: Seq<(Vec<u8>, StationValues)>,
)
    requires
        out.len() == entries.len(),
        forall|i: int|
            0 <= i < entries.len() ==> (#[trigger] out[i]).0@ == entries[i].0@ && (
            out[i].1.min as int,
            out[i].1.max as int,
            out[i].1.mean as int,
            ) == rounded_triple(entries[i].1.model()),
    ensures
        summaries_map(out) == rounded_map(crate::stats::entries_map(entries)),
    decreases entries.len(),
{
    if entries.len() == 0 {
        assert(summaries_map(out) =~= rounded_map(crate::stats::entries_map(entries)));
    } else {
        assert(forall|i: int|
            0 <= i < entries.len() - 1 ==> #[trigger] out.drop_last()[i] == out[i]
                && #[trigger] entries.drop_last()[i] == entries[i]);
        lemma_summaries_match(entries.drop_last(), out.drop_last());
        assert(out[entries.len() - 1] == out.last());
        assert(entries[entries.len() - 1] == entries.last());
        assert(summaries_map(out) =~= rounded_map(crate::stats::entries_map(entries)));
    }
}

/// Round every combined aggregate into its finalized figures.  For every
/// key, the rounded minimum, mean and maximum never invert.
pub fn finalize(combined: &WorkerResult) -> (r: Vec<(Vec<u8>, StationValues)>)
    requires
        combined.wf(),
    ensures
        r@.len() == combined.entries@.len(),
        forall|i: int|
            0 <= i < r@.len() ==> (#[trigger] r@[i]).0@ == combined.entries@[i].0@ && (
            r@[i].1.min as int,
            r@[i].1.max as int,
            r@[i].1.mean as int,
            ) == rounded_triple(combined.entries@[i].1.model()),
        forall|i: int|
            0 <= i < r@.len() ==> (#[trigger] r@[i]).1.min <= r@[i].1.mean && r@[i].1.mean
                <= r@[i].1.max,
        summaries_map(r@) == rounded_map(combined.as_map()),
        summary_keys(r@) == keys_of(combined.entries@),
        summary_keys_unique(r@),
{
    let mut out: Vec<(Vec<u8>, StationValues)> = Vec::new();
    let n: usize = combined.entries.len();
    let mut i: usize = 0;
    while i < n
        invariant
            i <= n,
            n == combined.entries@.len(),
            combined.wf(),
            out@.len() == i,
            forall|j: int|
                0 <= j < i ==> (#[trigger] out@[j]).0@ == combined.entries@[j].0@ && (
                out@[j].1.min as int,
                out@[j].1.max as int,
                out@[j].1.mean as int,
                ) == rounded_triple(combined.entries@[j].1.model()),
            forall|j: int|
                0 <= j < i ==> (#[trigger] out@[j]).1.min <= out@[j].1.mean && out@[j].1.mean
                    <= out@[j].1.max,
        decreases n - i,
    {
        let st: AggregateState = combined.entries[i].1;
        proof {
            assert(st.wf());
            assert((st.min as int) * (st.count as int) == (st.count as int) * (st.min as int))
                by (nonlinear_arith);
            assert((st.max as int) * (st.count as int) == (st.count as int) * (st.max as int))
                by (nonlinear_arith);
            crate::decimal::lemma_round_half_bounds(
                st.sum as int,
                st.count as int,
                st.min as int,
                st.max as int,
            );
        }
        let mean128: i128 = round_half_div(st.sum, st.count);
        let mean_val: i64 = mean128 as i64;
        let key = slice_to_vec(combined.entries[i].0.as_slice());
        out.push((key, StationValues { min: st.min, max: st.max, mean: mean_val }));
        i = i + 1;
    }
    proof {
        lemma_summaries_match(combined.entries@, out@);
        assert(summary_keys(out@) =~= keys_of(combined.entries@));
        assert(summary_keys_unique(out@)) by {
            assert(forall|p: int, q: int|
                0 <= p < q < out@.len() ==> (#[trigger] combined.entries@[p]).0@ != (
                #[trigger] combined.entries@[q]).0@);
        };
    }
    out
}

/// Plan chunks, scan each chunk, and merge everything into one combined
/// mapping: exactly the aggregate of the whole input's records, whatever the
/// worker count.  The combined total count equals the number of records in
/// the input.
#[verifier::loop_isolation(false)]
pub fn aggregate_combined(data: &[u8], workers: usize) -> (r: Result<
    WorkerResult,
    MalformedRecord,
>)
    requires
        1 <= workers,
    ensures
        (match r {
            Ok(w) => chunk_records(data@, 0, data@.len() as int) matches Ok(rs) && w.wf()
                && w.as_map() == agg_of_records(rs) && w.total_count() == rs.len() && keys_of(
                w.entries@,
            ) == keys_after_fold(Seq::empty(), rs),
            Err(e) => chunk_records(data@, 0, data@.len() as int) matches Err(f)
                && e.spec_failure() == f,
        }),
{
    let n: usize = data.len();
    let ranges = plan_chunks(data, workers, TERMINATOR);
    let mut result = WorkerResult::new();
    let mut processed: usize = 0;
    let ghost mut done: Seq<(Seq<u8>, int)> = Seq::empty();
    let mut ci: usize = 0;
    proof {
        lemma_combine_maps_empty(agg_of_records(done));
        assert(keys_of(result.entries@) =~= Seq::<Seq<u8>>::empty());
    }
    while ci < ranges.len()
        invariant
            ci <= ranges@.len(),
            processed as int == if ci == 0 {
                0int
            } else {
                ranges@[ci - 1].end as int
            },
            processed <= n,
            result.wf(),
            chunk_records(data@, 0, processed as int) == Ok::<_, RecordFailure>(done),
            result.as_map() == agg_of_records(done),
            result.total_count() == done.len(),
            keys_of(result.entries@) == keys_after_fold(Seq::empty(), done),
            done.len() <= processed,
        decreases ranges@.len() - ci,
    {
        let range: ChunkRange = ranges[ci];
        proof {
            if ci > 0 {
                assert(ranges@[ci - 1].end == ranges@[ci as int].start);
            }
            assert(processed == range.start);
            assert(usize::MAX as int <= u64::MAX as int);
        }
        match process_chunk(data, range, &mut result) {
            Ok(()) => {
                proof {
                    let rs = match chunk_records(data@, range.start as int, range.end as int) {
                        Ok(rs) => rs,
                        Err(_) => Seq::empty(),
                    };
                    if ci > 0 {
                        assert(data@[range.start - 1] == TERMINATOR);
                    }
                    lemma_aligned_cut_concat(data@, 0, range.start as int, range.end as int);
                    lemma_agg_concat(done, rs);
                    lemma_keys_after_fold_concat(Seq::empty(), done, rs);
                    done = done + rs;
                }
                processed = range.end;
                ci = ci + 1;
            },
            Err(e) => {
                proof {
                    if ci > 0 {
                        assert(data@[range.start - 1] == TERMINATOR);
                    }
                    if (range.end as int) < data@.len() as int {
                        assert(data@[range.end - 1] == TERMINATOR);
                        lemma_aligned_cut_concat(
                            data@,
                            range.start as int,
                            range.end as int,
                            data@.len() as int,
                        );
                    }
                    lemma_aligned_cut_concat(data@, 0, range.start as int, data@.len() as int);
                }
                return Err(e);
            },
        }
    }
    proof {
        if ranges@.len() == 0 {
            assert(data@.len() == 0);
        } else {
            assert(processed as int == ranges@[ranges@.len() - 1].end as int);
        }
        assert(processed as int == data@.len() as int);
    }
    Ok(result)
}

/// Run the whole engine over `data`: plan, scan, merge, and finalize.  The
/// result mapping is a function of the input bytes alone — it does not
/// depend on the worker count, and running twice over identical input yields
/// the identical mapping.  Empty input yields an empty mapping and no error.
pub fn aggregate(data: &[u8], workers: usize) -> (r: Result<
    Vec<(Vec<u8>, StationValues)>,
    MalformedRecord,
>)
    requires
        1 <= workers,
    ensures
        (match r {
            Ok(out) => spec_summaries(data@) == Ok::<_, RecordFailure>(summaries_map(out@))
                && summary_keys(out@) == spec_key_order(data@) && summary_keys_unique(out@) && (
            forall|i: int|
                0 <= i < out@.len() ==> (#[trigger] out@[i]).1.min <= out@[i].1.mean
                    && out@[i].1.mean <= out@[i].1.max) && (data@.len() == 0 ==> out@.len() == 0),
            Err(e) => spec_summaries(data@) == Err::<Map<Seq<u8>, (int, int, int)>, _>(
                e.spec_failure(),
            ),
        }),
{
    match aggregate_combined(data, workers) {
        Ok(combined) => {
            let out = finalize(&combined);
            proof {
                if data@.len() == 0 {
                    // No records, so every well-formed entry list is empty.
                    if combined.entries@.len() > 0 {
                        lemma_sum_counts_nonneg(combined.entries@.drop_last());
                        assert(combined.entries@[combined.entries@.len() - 1].1.wf());
                        assert(combined.total_count() >= 1);
                        assert(false);
                    }
                }
            }
            Ok(out)
        },
        Err(e) => Err(e),
    }
}

} // verus!
