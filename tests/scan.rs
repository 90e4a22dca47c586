use onebrc::aggregate::{abra_kadabra, update_stats, StationStats};
use onebrc::chunk::plan_chunks;
use onebrc::fast_hash::{fast_hash, Fasthasher};
use onebrc::format::{format_summary, mean_of};
use onebrc::line_index::find_newline;
use onebrc::merge::{compare_bytes, ResultMap};
use onebrc::record::{is_record, is_temperature, parse_temperature, split_semi};
use onebrc::small_key::StrVec;
use onebrc::stats::Stat;
use std::cmp::Ordering;

const SAMPLE: &[u8] = b"Hamburg;12.0\nBulawayo;8.9\nHamburg;-3.5\n";

fn summarize(buf: &[u8], workers: usize) -> String {
    let mut result = ResultMap::new();
    for (start, end) in plan_chunks(buf, workers) {
        let part = abra_kadabra(&buf[start..end]).expect("well-formed chunk");
        result.merge_from(&part);
    }
    String::from_utf8(format_summary(&result)).unwrap()
}

#[test]
fn test_split_semi_basic() {
    let input = b"hello;world";
    let (left, right) = split_semi(input);

    assert_eq!(left, b"hello");
    assert_eq!(right, b"world");
}

#[test]
fn newlineworking() {
    assert_eq!(find_newline(b"HELLO\nBYE"), Some(5));
}

#[test]
fn find_newline_absent_and_long() {
    assert_eq!(find_newline(b""), None);
    assert_eq!(find_newline(b"no terminator here"), None);
    let mut long = vec![b'x'; 70];
    long[65] = b'\n';
    long[68] = b'\n';
    assert_eq!(find_newline(&long), Some(65));
}

#[test]
fn split_semi_uses_last_separator() {
    let (left, right) = split_semi(b"a;b;-12.3");
    assert_eq!(left, b"a;b");
    assert_eq!(right, b"-12.3");
}

#[test]
fn small_key_round_trip_across_boundary() {
    for len in [0usize, 1, 14, 15, 16, 17, 100, 9999] {
        let bytes: Vec<u8> = (0..len).map(|i| (i % 251) as u8).collect();
        let key = StrVec::new(&bytes);
        assert_eq!(key.as_bytes(), &bytes[..], "length {}", len);
    }
}

#[test]
fn small_key_equality_and_hash_follow_bytes() {
    let a = StrVec::new(b"Bulawayo");
    let b = StrVec::new(b"Bulawayo");
    let c = StrVec::new(b"Bulawayx");
    assert!(a == b);
    assert!(a != c);
    assert_eq!(a.hash_key(), b.hash_key());
    assert!(a.eq_bytes(b"Bulawayo"));
    assert!(!a.eq_bytes(b"Bulaway"));
    let long = b"a station name longer than the inline buffer";
    assert!(StrVec::new(long) == StrVec::new(long));
    assert_eq!(StrVec::new(long).hash_key(), fast_hash(long));
}

#[test]
fn fast_hash_exact_values() {
    let k: u64 = 0xf1357aea2e62a9c5;
    let seed: u64 = 0x13198a2e03707344;
    let short = (b'a' as u64) | ((b'b' as u64) << 8) | ((b'b' as u64) << 16);
    let expected_short = (seed ^ short).wrapping_mul(k).rotate_left(26);
    assert_eq!(fast_hash(b"ab"), expected_short);
    let long = u32::from_le_bytes(*b"Hamb") as u64;
    let expected_long = (seed ^ long).wrapping_mul(k).rotate_left(26);
    assert_eq!(fast_hash(b"Hamburg"), expected_long);
    assert_eq!(fast_hash(b"Hamburg"), fast_hash(b"Hambxxx"));
    let mut h = Fasthasher::new();
    h.write(b"Hamburg");
    assert_eq!(h.finish(), expected_long);
}

#[test]
fn parse_temperature_values() {
    assert_eq!(parse_temperature(b"-12.3"), -123);
    assert_eq!(parse_temperature(b"3.4"), 34);
    assert_eq!(parse_temperature(b"99.9"), 999);
    assert_eq!(parse_temperature(b"-0.1"), -1);
    assert_eq!(parse_temperature(b"0.0"), 0);
    assert_eq!(parse_temperature(b"-99.9"), -999);
}

#[test]
fn temperature_and_record_checks() {
    assert!(is_temperature(b"12.0"));
    assert!(is_temperature(b"-3.5"));
    assert!(!is_temperature(b"123.4"));
    assert!(!is_temperature(b"1.23"));
    assert!(!is_temperature(b"-"));
    assert!(!is_temperature(b"a.b"));
    assert!(is_record(b"Hamburg;12.0"));
    assert!(is_record(b";1.0"));
    assert!(!is_record(b"Hamburg 12.0"));
    assert!(!is_record(b"Hamburg;12"));
}

#[test]
fn sample_scenario_output() {
    assert_eq!(summarize(SAMPLE, 1), "{Bulawayo=8.9/8.9/8.9, Hamburg=-3.5/4.2/12.0}");
}

#[test]
fn output_independent_of_worker_count() {
    let expected = summarize(SAMPLE, 1);
    for workers in 1..=8 {
        assert_eq!(summarize(SAMPLE, workers), expected, "{} workers", workers);
    }
    let no_trailing = b"Hamburg;12.0\nBulawayo;8.9\nHamburg;-3.5";
    assert_eq!(summarize(no_trailing, 3), expected);
}

#[test]
fn output_keys_ascend() {
    let buf = b"b;1.0\nab;2.0\na;3.0\nB;4.0\nb;-1.0\n";
    assert_eq!(
        summarize(buf, 2),
        "{B=4.0/4.0/4.0, a=3.0/3.0/3.0, ab=2.0/2.0/2.0, b=-1.0/0.0/1.0}"
    );
}

#[test]
fn chunk_merge_matches_single_pass() {
    let buf = b"x;1.0\ny;2.5\nx;-4.0\nz;10.1\ny;2.4\nx;7.7\n";
    let whole = abra_kadabra(buf).unwrap();
    let mut single = ResultMap::new();
    single.merge_from(&whole);
    let mut merged = ResultMap::new();
    for (start, end) in plan_chunks(buf, 4) {
        merged.merge_from(&abra_kadabra(&buf[start..end]).unwrap());
    }
    assert_eq!(single.len(), merged.len());
    for i in 0..single.len() {
        assert_eq!(single.key(i), merged.key(i));
        let (a, b) = (single.stat(i), merged.stat(i));
        assert_eq!((a.min, a.max, a.sum, a.count), (b.min, b.max, b.sum, b.count));
    }
    assert_eq!(merged.total_records(), 6);
}

#[test]
fn chunks_partition_buffer() {
    let buf = b"aa;1.0\nbbbb;2.0\nc;3.0\ndd;4.0\n";
    let chunks = plan_chunks(buf, 3);
    assert_eq!(chunks.len(), 3);
    assert_eq!(chunks[0].0, 0);
    assert_eq!(chunks[2].1, buf.len());
    for w in chunks.windows(2) {
        assert_eq!(w[0].1, w[1].0);
    }
    for &(_, end) in &chunks[..2] {
        assert!(end == buf.len() || buf[end - 1] == b'\n');
    }
    assert_eq!(chunks, vec![(0, 16), (16, 29), (29, 29)]);
}

#[test]
fn chunks_of_short_buffer() {
    let chunks = plan_chunks(b"a;1.0", 8);
    assert_eq!(chunks.len(), 8);
    assert_eq!(chunks[0], (0, 5));
    for c in &chunks[1..] {
        assert_eq!(*c, (5, 5));
    }
    let empty = plan_chunks(b"", 2);
    assert_eq!(empty, vec![(0, 0), (0, 0)]);
}

#[test]
fn malformed_line_is_rejected() {
    assert!(abra_kadabra(b"Hamburg;12.0\nBulawayo 8.9\n").is_none());
    assert!(abra_kadabra(b"Hamburg;12.0\n\nBulawayo;8.9\n").is_none());
    assert!(abra_kadabra(b"").is_some());
}

#[test]
fn update_stats_tracks_min_max_sum_count() {
    let mut stats = StationStats::new();
    update_stats(&mut stats, b"Oslo", 12);
    update_stats(&mut stats, b"Oslo", -40);
    update_stats(&mut stats, b"Rome", 250);
    update_stats(&mut stats, b"Oslo", 7);
    assert_eq!(stats.len(), 2);
    assert_eq!(stats.key(0), b"Oslo");
    let s = stats.stat(0);
    assert_eq!((s.min, s.max, s.sum, s.count), (-40, 12, -21, 3));
    assert_eq!(stats.total_records(), 4);
}

#[test]
fn mean_rounds_ties_to_even() {
    let stat = |sum: i64, count: u64| Stat { min: -999, max: 999, sum, count };
    assert_eq!(mean_of(stat(85, 2)), 42);
    assert_eq!(mean_of(stat(95, 2)), 48);
    assert_eq!(mean_of(stat(-85, 2)), -42);
    assert_eq!(mean_of(stat(-1, 3)), 0);
    assert_eq!(mean_of(stat(2, 3)), 1);
    assert_eq!(mean_of(stat(100, 7)), 14);
}

#[test]
fn stat_default_is_identity() {
    let d = Stat::default();
    assert_eq!((d.min, d.max, d.sum, d.count), (i16::MAX, i16::MIN, 0, 0));
}

#[test]
fn compare_bytes_orders_lexicographically() {
    assert_eq!(compare_bytes(b"a", b"b"), Ordering::Less);
    assert_eq!(compare_bytes(b"ab", b"a"), Ordering::Greater);
    assert_eq!(compare_bytes(b"", b""), Ordering::Equal);
    assert_eq!(compare_bytes(b"Z", b"a"), Ordering::Less);
    assert_eq!(compare_bytes(b"abc", b"abc"), Ordering::Equal);
}

#[test]
fn merge_order_does_not_matter() {
    let buf = b"Oslo;1.0\nRome;20.5\nLima;-3.3\nOslo;-1.0\nRome;19.5\nAbuja;30.0\n";
    let chunks = plan_chunks(buf, 3);
    let parts: Vec<StationStats> =
        chunks.iter().map(|&(s, e)| abra_kadabra(&buf[s..e]).unwrap()).collect();
    let mut forward = ResultMap::new();
    for p in &parts {
        forward.merge_from(p);
    }
    let mut backward = ResultMap::new();
    for p in parts.iter().rev() {
        backward.merge_from(p);
    }
    let a = String::from_utf8(format_summary(&forward)).unwrap();
    let b = String::from_utf8(format_summary(&backward)).unwrap();
    assert_eq!(a, b);
    assert_eq!(
        a,
        "{Abuja=30.0/30.0/30.0, Lima=-3.3/-3.3/-3.3, Oslo=-1.0/0.0/1.0, Rome=19.5/20.0/20.5}"
    );
}
