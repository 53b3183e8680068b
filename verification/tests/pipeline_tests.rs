use station_stats::aggregate::process_chunk;
use station_stats::records::Records;
use station_stats::chunk::{chunk_read_range, correct_chunk};
use station_stats::merge::merge_into_global;
use station_stats::report::report;
use station_stats::table::StationMap;

/// The sequential pipeline over in-memory bytes: hand out chunk ranges,
/// correct each to line boundaries, aggregate, merge, then report.
fn run_pipeline(data: &[u8], chunk_size: u64, overlap: u64) -> Vec<u8> {
    let file_size = data.len() as u64;
    let mut global = StationMap::new();
    let mut chunk_start: u64 = 0;
    while chunk_start < file_size {
        let (read_start, read_end) = chunk_read_range(chunk_start, chunk_size, overlap, file_size);
        let buffer = &data[read_start as usize..read_end as usize];
        let look_back = (chunk_start - read_start) as usize;
        if let Some((s, e)) = correct_chunk(buffer, look_back) {
            let local = process_chunk(&buffer[s..e]);
            assert!(merge_into_global(&mut global, &local));
        }
        chunk_start += chunk_size;
    }
    report(global)
}

#[test]
fn example_three_records_two_stations() {
    let out = run_pipeline(b"A;10.0\nB;-5.0\nA;20.0\n", 1 << 24, 64);
    assert_eq!(out, b"A;10.0;15.0;20.0\nB;-5.0;-5.0;-5.0\n".to_vec());
}

#[test]
fn malformed_line_dropped_silently() {
    let out = run_pipeline(b"A;10.0\nC;notanumber\nB;-5.0\nA;20.0\n", 1 << 24, 64);
    assert_eq!(out, b"A;10.0;15.0;20.0\nB;-5.0;-5.0;-5.0\n".to_vec());
    let out2 = run_pipeline(b"noseparator\nA;1.5\nbad;\n", 1 << 24, 64);
    assert_eq!(out2, b"A;1.5;1.5;1.5\n".to_vec());
}

#[test]
fn boundary_record_counted_exactly_once() {
    // Chunk size 10 over 14 bytes: the second record straddles the boundary
    // and must be attributed to exactly one chunk.
    let data = b"AB;1.0\nCD;2.0\n";
    let out = run_pipeline(data, 10, 64);
    assert_eq!(out, b"AB;1.0;1.0;1.0\nCD;2.0;2.0;2.0\n".to_vec());
    let out2 = run_pipeline(data, 10, 4);
    assert_eq!(out2, b"AB;1.0;1.0;1.0\nCD;2.0;2.0;2.0\n".to_vec());
}

#[test]
fn chunked_equals_unchunked() {
    // Overlap at least the longest line and at most the chunk size: every
    // look-back window then holds a newline and the corrected chunks tile
    // the file's lines exactly.
    let data = b"Kyiv;7.5\nOslo;-3.25\nKyiv;12.0\nLima;20.1\nOslo;0.4\nKyiv;-1.1\n";
    let whole = run_pipeline(data, 1 << 24, 64);
    for c in [16u64, 23, 31, 64] {
        assert_eq!(run_pipeline(data, c, 16), whole);
    }
}

#[test]
fn pipeline_is_idempotent() {
    let data = b"S1;3.3\nS2;-0.1\nS1;4.7\n";
    let first = run_pipeline(data, 8, 8);
    let second = run_pipeline(data, 8, 8);
    assert_eq!(first, second);
}

#[test]
fn output_sorted_by_station_bytes() {
    let out = run_pipeline(b"b;1.0\nA;2.0\nB;3.0\na;4.0\n", 1 << 24, 64);
    assert_eq!(out, b"A;2.0;2.0;2.0\nB;3.0;3.0;3.0\na;4.0;4.0;4.0\nb;1.0;1.0;1.0\n".to_vec());
}

#[test]
fn empty_station_and_negative_means() {
    let out = run_pipeline(b";1.0\nX;-3.0\nX;-4.0\n", 1 << 24, 64);
    assert_eq!(out, b";1.0;1.0;1.0\nX;-4.0;-3.5;-3.0\n".to_vec());
}

#[test]
fn invalid_utf8_station_is_replaced_not_rejected() {
    // 0xFF is not valid UTF-8: the station name is decoded lossily at the
    // merge boundary, so the key in the output is the replacement character.
    let mut data: Vec<u8> = Vec::new();
    data.extend_from_slice(b"\xffZ;1.0\n");
    let out = run_pipeline(&data, 1 << 24, 64);
    let mut expected: Vec<u8> = Vec::new();
    expected.extend_from_slice("\u{fffd}".as_bytes());
    expected.extend_from_slice(b"Z;1.0;1.0;1.0\n");
    assert_eq!(out, expected);
}

#[test]
fn chunk_without_overlap_newline_is_abandoned() {
    // A lone long line crossing the boundary: the second chunk's look-back
    // window holds no newline, so that chunk is abandoned.
    let buffer = b"AAAAAAAAAABBBBBBBBBB";
    assert_eq!(correct_chunk(buffer, 10), None);
    // With a newline inside the window the chunk is corrected instead.
    let buffer2 = b"AAAA\nAAAAABBBBBBBBBB";
    assert_eq!(correct_chunk(buffer2, 10), Some((5, 20)));
}

#[test]
fn correct_chunk_trims_trailing_partial_line() {
    assert_eq!(correct_chunk(b"A;1.0\nB;2.0\nC;3", 0), Some((0, 11)));
    assert_eq!(correct_chunk(b"A;1.0\nB;2.0\n", 0), Some((0, 11)));
    assert_eq!(correct_chunk(b"A;1.0", 0), Some((0, 5)));
}

#[test]
fn read_range_clamps_at_file_edges() {
    assert_eq!(chunk_read_range(0, 10, 64, 14), (0, 10));
    assert_eq!(chunk_read_range(10, 10, 64, 14), (0, 14));
    assert_eq!(chunk_read_range(10, 10, 4, 14), (6, 14));
    assert_eq!(chunk_read_range(20, 10, 4, 25), (16, 25));
}

#[test]
fn merge_reports_count_overflow() {
    let big = Records { count: u64::MAX, min: 0, max: 0, sum: 0 };
    let one = Records { count: 1, min: 0, max: 0, sum: 0 };
    let mut global = StationMap { entries: vec![(b"S".to_vec(), big)] };
    let local = StationMap { entries: vec![(b"S".to_vec(), one)] };
    assert!(!merge_into_global(&mut global, &local));
}

#[test]
fn merge_accumulates_across_chunks() {
    let mut global = StationMap::new();
    let a = process_chunk(b"A;1.0\nB;2.0");
    let b = process_chunk(b"A;3.0");
    assert!(merge_into_global(&mut global, &a));
    assert!(merge_into_global(&mut global, &b));
    let out = report(global);
    assert_eq!(out, b"A;1.0;2.0;3.0\nB;2.0;2.0;2.0\n".to_vec());
}
