use rs_1brc::engine::{aggregate, aggregate_combined, finalize, process_chunk, StationValues};
use rs_1brc::error::MalformedKind;
use rs_1brc::planner::{plan_chunks, ChunkRange};
use rs_1brc::records::{find_new_line_pos, parse_record};
use rs_1brc::stats::WorkerResult;

fn key(s: &str) -> Vec<u8> {
    s.as_bytes().to_vec()
}

#[test]
fn three_records_scenario() {
    // Oslo: min 5.0, max 7.2, mean 6.1; Bergen: 3.3 across the board.
    let data = b"Oslo;5.0\nOslo;7.2\nBergen;3.3\n";
    let out = aggregate(data, 2).expect("input is well formed");
    assert_eq!(
        out,
        vec![
            (key("Oslo"), StationValues { min: 50, max: 72, mean: 61 }),
            (key("Bergen"), StationValues { min: 33, max: 33, mean: 33 }),
        ]
    );
}

#[test]
fn empty_input_yields_empty_result() {
    let out = aggregate(b"", 4).expect("empty input is not an error");
    assert_eq!(out, vec![]);
    let ranges = plan_chunks(b"", 4, b'\n');
    assert_eq!(ranges.len(), 0);
}

#[test]
fn idempotence_bit_identical() {
    let data = b"a;1.0\nb;2.5\na;-3.0\nc;0.0\nb;2.5\n";
    let first = aggregate(data, 3).unwrap();
    let second = aggregate(data, 3).unwrap();
    assert_eq!(first, second);
}

#[test]
fn result_independent_of_worker_count() {
    let data = b"a;1.0\nb;2.5\na;-3.0\nc;0.0\nb;2.5\nlong station name;9.9\n";
    let single = aggregate(data, 1).unwrap();
    for workers in 2..10usize {
        assert_eq!(aggregate(data, workers).unwrap(), single);
    }
}

#[test]
fn count_conservation() {
    let data = b"a;1.0\nb;2.5\na;-3.0\nc;0.0\nb;2.5\n";
    let combined = aggregate_combined(data, 4).unwrap();
    let total: u64 = combined.entries.iter().map(|e| e.1.count).sum();
    assert_eq!(total, 5);
}

#[test]
fn per_key_bound_near_midpoints() {
    // Means land exactly on midpoints; rounding must stay within [min, max].
    let data = b"p;2.2\np;2.3\nn;-2.2\nn;-2.3\n";
    let out = aggregate(data, 2).unwrap();
    for (_, sv) in &out {
        assert!(sv.min <= sv.mean && sv.mean <= sv.max);
    }
    assert_eq!(
        out,
        vec![
            (key("p"), StationValues { min: 22, max: 23, mean: 23 }),
            (key("n"), StationValues { min: -23, max: -22, mean: -23 }),
        ]
    );
}

#[test]
fn planner_realigns_naive_split() {
    // With two workers the naive split point 9 falls inside the first
    // record; the planned boundary must land just after its terminator.
    let data = b"aaaaaa;1.0\nbbb;2.0\n";
    assert_eq!(data.len(), 19);
    let ranges = plan_chunks(data, 2, b'\n');
    assert_eq!(
        ranges,
        vec![ChunkRange { start: 0, end: 11 }, ChunkRange { start: 11, end: 19 }]
    );
    for w in ranges.windows(2) {
        assert_eq!(w[0].end, w[1].start);
        assert_eq!(data[w[0].end - 1], b'\n');
    }
    assert_eq!(ranges[0].start, 0);
    assert_eq!(ranges.last().unwrap().end, data.len());
}

#[test]
fn planner_collapses_when_terminators_run_out() {
    // The naive split lands inside the only terminator-free tail, so the
    // whole input becomes a single chunk.
    let data = b"Oslo;5.0\nBergen;3.3\n";
    let ranges = plan_chunks(data, 2, b'\n');
    assert_eq!(ranges, vec![ChunkRange { start: 0, end: 20 }]);
}

#[test]
fn malformed_value_reports_offset_and_bytes() {
    let err = aggregate(b"Oslo;abc\n", 1).unwrap_err();
    assert_eq!(err.kind, MalformedKind::BadNumber);
    assert_eq!(err.offset, 5);
    assert_eq!(err.bytes, b"abc".to_vec());
}

#[test]
fn missing_delimiter_is_an_error() {
    let err = aggregate(b"Oslo;5.0\nBergen\n", 1).unwrap_err();
    assert_eq!(err.kind, MalformedKind::MissingDelimiter);
    assert_eq!(err.offset, 9);
    assert_eq!(err.bytes, b"Bergen".to_vec());
}

#[test]
fn missing_terminator_is_an_error() {
    let err = aggregate(b"Oslo;5.0\nBergen;3.3", 1).unwrap_err();
    assert_eq!(err.kind, MalformedKind::MissingTerminator);
    assert_eq!(err.offset, 9);
    assert_eq!(err.bytes, b"Bergen;3.3".to_vec());
}

#[test]
fn malformed_record_aborts_whatever_the_chunking() {
    for workers in 1..6usize {
        let err = aggregate(b"a;1.0\nb;bad\nc;3.0\n", workers).unwrap_err();
        assert_eq!(err.kind, MalformedKind::BadNumber);
        assert_eq!(err.offset, 8);
        assert_eq!(err.bytes, b"bad".to_vec());
    }
}

#[test]
fn parse_record_walks_records() {
    let data = b"Oslo;5.0\nBergen;3.3\n";
    let (k1, v1, next1) = parse_record(data, 0, data.len()).unwrap();
    assert_eq!(k1, key("Oslo"));
    assert_eq!(v1, 50);
    assert_eq!(next1, 9);
    let (k2, v2, next2) = parse_record(data, next1, data.len()).unwrap();
    assert_eq!(k2, key("Bergen"));
    assert_eq!(v2, 33);
    assert_eq!(next2, 20);
}

#[test]
fn process_chunk_accumulates_across_chunks() {
    let data = b"a;1.0\na;3.0\n";
    let mut result = WorkerResult::new();
    process_chunk(data, ChunkRange { start: 0, end: 6 }, &mut result).unwrap();
    process_chunk(data, ChunkRange { start: 6, end: 12 }, &mut result).unwrap();
    assert_eq!(result.entries.len(), 1);
    let st = result.entries[0].1;
    assert_eq!(st.min, 10);
    assert_eq!(st.max, 30);
    assert_eq!(st.sum, 40);
    assert_eq!(st.count, 2);
}

#[test]
fn merge_combines_partial_results() {
    let mut left = WorkerResult::new();
    process_chunk(b"a;1.0\nb;5.0\n", ChunkRange { start: 0, end: 12 }, &mut left).unwrap();
    let mut right = WorkerResult::new();
    process_chunk(b"b;-1.0\nc;2.0\n", ChunkRange { start: 0, end: 13 }, &mut right).unwrap();
    left.merge(&right);
    let out = finalize(&left);
    assert_eq!(
        out,
        vec![
            (key("a"), StationValues { min: 10, max: 10, mean: 10 }),
            (key("b"), StationValues { min: -10, max: 50, mean: 20 }),
            (key("c"), StationValues { min: 20, max: 20, mean: 20 }),
        ]
    );
}

#[test]
fn parallel_style_merge_matches_aggregate() {
    // The driver's plan/scan/merge path and the library's own composition
    // must agree exactly.
    let data = b"k1;4.0\nk2;-0.5\nk1;6.0\nk3;0.0\nk2;1.5\n";
    let ranges = plan_chunks(data, 3, b'\n');
    let mut combined = WorkerResult::new();
    for r in &ranges {
        let mut w = WorkerResult::new();
        process_chunk(data, *r, &mut w).unwrap();
        combined.merge(&w);
    }
    let out = finalize(&combined);
    assert_eq!(out, aggregate(data, 3).unwrap());
}

#[test]
fn empty_keys_and_exotic_bytes_are_grouped_byte_exactly() {
    let data = b";1.0\n;3.0\n\xc3\x98rje;2.0\n";
    let out = aggregate(data, 1).unwrap();
    assert_eq!(
        out,
        vec![
            (Vec::new(), StationValues { min: 10, max: 30, mean: 20 }),
            ("Ørje".as_bytes().to_vec(), StationValues { min: 20, max: 20, mean: 20 }),
        ]
    );
}

#[test]
fn find_new_line_pos_finds_last_newline() {
    assert_eq!(find_new_line_pos(b"ab\ncd\nef"), Some(5));
    assert_eq!(find_new_line_pos(b"\n"), Some(0));
    assert_eq!(find_new_line_pos(b"abcdef"), None);
    assert_eq!(find_new_line_pos(b""), None);
}
