use station_stats::parse::parse_temp;
use station_stats::records::Records;
use station_stats::splitter::find_next_newline_simd;

fn naive_scan(buffer: &[u8]) -> Option<usize> {
    for (i, b) in buffer.iter().enumerate() {
        if *b == b'\n' {
            return Some(i);
        }
    }
    None
}

#[test]
fn splitter_empty_buffer() {
    assert_eq!(find_next_newline_simd(b""), None);
}

#[test]
fn splitter_no_newline_short() {
    assert_eq!(find_next_newline_simd(b"abc"), None);
}

#[test]
fn splitter_no_newline_long() {
    let buf = vec![b'x'; 200];
    assert_eq!(find_next_newline_simd(&buf), None);
}

#[test]
fn splitter_newline_in_first_lane() {
    let mut buf = vec![b'x'; 128];
    buf[10] = b'\n';
    assert_eq!(find_next_newline_simd(&buf), Some(10));
}

#[test]
fn splitter_newline_exactly_at_lane_boundary() {
    let mut buf = vec![b'x'; 130];
    buf[64] = b'\n';
    assert_eq!(find_next_newline_simd(&buf), Some(64));
    let mut buf2 = vec![b'x'; 130];
    buf2[63] = b'\n';
    assert_eq!(find_next_newline_simd(&buf2), Some(63));
}

#[test]
fn splitter_newline_in_tail() {
    let mut buf = vec![b'x'; 70];
    buf[68] = b'\n';
    assert_eq!(find_next_newline_simd(&buf), Some(68));
}

#[test]
fn splitter_returns_first_of_many() {
    let mut buf = vec![b'x'; 100];
    buf[5] = b'\n';
    buf[6] = b'\n';
    buf[80] = b'\n';
    assert_eq!(find_next_newline_simd(&buf), Some(5));
}

#[test]
fn splitter_matches_byte_by_byte_scan() {
    // Sub-lane buffers, no-newline buffers, and lane-boundary newlines.
    for len in [0usize, 1, 5, 63, 64, 65, 127, 128, 129, 200] {
        for pos in 0..=len {
            let mut buf = vec![b'a'; len];
            if pos < len {
                buf[pos] = b'\n';
            }
            assert_eq!(find_next_newline_simd(&buf), naive_scan(&buf));
        }
    }
}

#[test]
fn parse_plain_values() {
    assert_eq!(parse_temp(b"10.0"), Some(100));
    assert_eq!(parse_temp(b"-5.0"), Some(-50));
    assert_eq!(parse_temp(b"0.0"), Some(0));
    assert_eq!(parse_temp(b"12"), Some(120));
    assert_eq!(parse_temp(b"+2.5"), Some(25));
}

#[test]
fn parse_trims_whitespace() {
    assert_eq!(parse_temp(b" 3.4 "), Some(34));
    assert_eq!(parse_temp(b"\t-1.5\r"), Some(-15));
}

#[test]
fn parse_rounds_to_nearest_tenth_ties_away() {
    assert_eq!(parse_temp(b"2.24"), Some(22));
    assert_eq!(parse_temp(b"2.25"), Some(23));
    assert_eq!(parse_temp(b"2.26"), Some(23));
    assert_eq!(parse_temp(b"-2.25"), Some(-23));
}

#[test]
fn parse_rejects_malformed() {
    assert_eq!(parse_temp(b""), None);
    assert_eq!(parse_temp(b"   "), None);
    assert_eq!(parse_temp(b"notanumber"), None);
    assert_eq!(parse_temp(b"-"), None);
    assert_eq!(parse_temp(b"1."), None);
    assert_eq!(parse_temp(b".5"), None);
    assert_eq!(parse_temp(b"1.2.3"), None);
    assert_eq!(parse_temp(b"1 2"), None);
    assert_eq!(parse_temp(b"\xff"), None);
}

#[test]
fn parse_rejects_oversized_magnitude() {
    assert_eq!(parse_temp(b"99999999999999999999.0"), None);
    assert_eq!(parse_temp(b"999999999999999.9"), None);
    assert_eq!(parse_temp(b"12345678901234"), Some(123456789012340));
}

#[test]
fn records_new_and_update() {
    let mut r = Records::new(100);
    assert_eq!(r.count, 1);
    assert_eq!(r.min, 100);
    assert_eq!(r.max, 100);
    assert_eq!(r.sum, 100);
    r.update(-50);
    r.update(200);
    assert_eq!(r.count, 3);
    assert_eq!(r.min, -50);
    assert_eq!(r.max, 200);
    assert_eq!(r.sum, 250);
}

#[test]
fn records_merge_combines_summaries() {
    let mut a = Records::new(100);
    a.update(200);
    let mut b = Records::new(-50);
    b.update(300);
    let mut ab = a;
    ab.merge(&b);
    assert_eq!(ab.count, 4);
    assert_eq!(ab.min, -50);
    assert_eq!(ab.max, 300);
    assert_eq!(ab.sum, 550);
}

#[test]
fn records_merge_is_commutative() {
    let mut a = Records::new(17);
    a.update(-3);
    let b = Records::new(250);
    let mut ab = a;
    ab.merge(&b);
    let mut ba = b;
    ba.merge(&a);
    assert_eq!(ab.count, ba.count);
    assert_eq!(ab.min, ba.min);
    assert_eq!(ab.max, ba.max);
    assert_eq!(ab.sum, ba.sum);
}

#[test]
fn records_mean_rounds_ties_away_from_zero() {
    let mut r = Records::new(10);
    r.update(15);
    // Mean of 1.0 and 1.5 is 1.25: rounded to 1.3 in tenths.
    assert_eq!(r.mean_tenths(), 13);
    let mut n = Records::new(-10);
    n.update(-15);
    assert_eq!(n.mean_tenths(), -13);
    let mut e = Records::new(100);
    e.update(200);
    assert_eq!(e.mean_tenths(), 150);
}
