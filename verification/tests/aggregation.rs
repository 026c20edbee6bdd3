use rowagg::acc::Acc;
use rowagg::engine::{aggregate_chunk, chunks, run_pipeline};
use rowagg::key::{ShortStationId, StationId};
use rowagg::output::{project_rows, render_rows, sort_rows, Res};
use rowagg::parse::{parse_digit, parse_int};
use rowagg::scan::{split_on, split_on_inclusive_from, Entries};
use rowagg::table::Table;

#[test]
fn parse_negative_two_digits() {
    assert_eq!(parse_int(b"-12.3"), -123);
}

#[test]
fn parse_two_digits() {
    assert_eq!(parse_int(b"99.9"), 999);
}

#[test]
fn parse_negative_one_digit() {
    assert_eq!(parse_int(b"-3.4"), -34);
}

#[test]
fn parse_one_digit() {
    assert_eq!(parse_int(b"5.0"), 50);
}

#[test]
fn parse_other_length_falls_back_to_zero() {
    assert_eq!(parse_int(b""), 0);
    assert_eq!(parse_int(b"123.45"), 0);
}

#[test]
fn parse_digit_reads_ascii() {
    assert_eq!(parse_digit(b'7'), 7);
    assert_eq!(parse_digit(b'0'), 0);
}

#[test]
fn split_on_finds_first_delimiter() {
    let (k, rest) = split_on(b"abc;1.5;x", b';').unwrap();
    assert_eq!(k, &b"abc"[..]);
    assert_eq!(rest, &b"1.5;x"[..]);
    assert!(split_on(b"abc", b';').is_none());
}

#[test]
fn split_inclusive_keeps_terminator() {
    let s = b"aa;1.0\nbb;2.0\n";
    let (head, tail) = split_on_inclusive_from(s, 2, b'\n').unwrap();
    assert_eq!(head, &b"aa;1.0\n"[..]);
    assert_eq!(tail, &b"bb;2.0\n"[..]);
    assert!(split_on_inclusive_from(s, s.len() + 1, b'\n').is_none());
    assert!(split_on_inclusive_from(b"abc", 0, b'\n').is_none());
}

#[test]
fn short_key_round_trip() {
    let id = StationId::from_bytes(b"Paris");
    assert_eq!(id.as_bytes(), b"Paris".to_vec());
}

#[test]
fn full_width_key_round_trip() {
    let key = b"abcdefghijklmnop";
    assert_eq!(key.len(), ShortStationId::max_size());
    let id = StationId::from_bytes(key);
    assert_eq!(id.as_bytes(), key.to_vec());
}

#[test]
fn long_key_round_trip() {
    let key = b"a-rather-long-station-name";
    assert!(key.len() > ShortStationId::max_size());
    let id = StationId::from_bytes(key);
    assert_eq!(id.as_bytes(), key.to_vec());
}

#[test]
fn key_renders_as_text() {
    let id = StationId::from_bytes(b"Paris");
    assert_eq!(id.to_str(), "Paris");
    let long = StationId::from_bytes(b"a-rather-long-station-name");
    assert_eq!(long.to_str(), "a-rather-long-station-name");
}

#[test]
fn keys_compare_by_content() {
    assert_eq!(StationId::from_bytes(b"Paris"), StationId::from_bytes(b"Paris"));
    assert_ne!(StationId::from_bytes(b"Paris"), StationId::from_bytes(b"London"));
    let long = b"a-rather-long-station-name";
    assert_eq!(StationId::from_bytes(long), StationId::from_bytes(long));
}

#[test]
fn accumulator_tracks_min_max_sum_count() {
    let mut a = Acc::default();
    a.add_value(123);
    a.add_value(-10);
    a.add_value(150);
    assert_eq!(a.min, -10);
    assert_eq!(a.max, 150);
    assert_eq!(a.sum, 263);
    assert_eq!(a.size, 3);
}

#[test]
fn accumulator_merge_is_commutative() {
    let mut a = Acc::default();
    a.add_value(5);
    a.add_value(-3);
    let mut b = Acc::default();
    b.add_value(70);
    let mut ab = a;
    ab.add_acc(&b);
    let mut ba = b;
    ba.add_acc(&a);
    assert_eq!(ab, ba);
    assert_eq!(ab.min, -3);
    assert_eq!(ab.max, 70);
    assert_eq!(ab.sum, 72);
    assert_eq!(ab.size, 3);
}

#[test]
fn accumulator_merge_is_associative() {
    let mut a = Acc::default();
    a.add_value(5);
    let mut b = Acc::default();
    b.add_value(-3);
    let mut c = Acc::default();
    c.add_value(70);
    let mut left = a;
    left.add_acc(&b);
    left.add_acc(&c);
    let mut bc = b;
    bc.add_acc(&c);
    let mut right = a;
    right.add_acc(&bc);
    assert_eq!(left, right);
}

#[test]
fn projection_rounds_half_away_from_zero() {
    let mut a = Acc::default();
    a.add_value(123);
    a.add_value(150);
    let r = a.to_res();
    assert_eq!(r.min, 123);
    assert_eq!(r.avg, 137);
    assert_eq!(r.max, 150);
    assert_eq!(r.size, 2);

    let mut n = Acc::default();
    n.add_value(-10);
    let rn = n.to_res();
    assert_eq!(rn.avg, -10);
}

#[test]
fn scanner_yields_records_in_order() {
    let buf = b"Paris;12.3\nLondon;-1.0\n";
    let mut ent = Entries { inner: buf };
    let (k1, v1) = ent.next().unwrap();
    assert_eq!(k1.as_bytes(), b"Paris".to_vec());
    assert_eq!(v1, 123);
    let (k2, v2) = ent.next().unwrap();
    assert_eq!(k2.as_bytes(), b"London".to_vec());
    assert_eq!(v2, -10);
    assert!(ent.next().is_none());
}

#[test]
fn scanner_drops_trailing_partial_line() {
    let buf = b"Paris;12.3\nLon";
    let mut ent = Entries { inner: buf };
    let (_, v) = ent.next().unwrap();
    assert_eq!(v, 123);
    assert!(ent.next().is_none());
}

#[test]
fn partition_extends_to_next_terminator() {
    let input = b"aa;1.0\nbb;2.0\ncc;3.0\n";
    // a target of 2 falls strictly inside the first line; the boundary must
    // move to just after its terminator
    let parts = chunks(input, 2);
    assert_eq!(parts[0], &b"aa;1.0\n"[..]);
    let mut total = Vec::new();
    for p in &parts {
        total.extend_from_slice(p);
    }
    assert_eq!(total, input.to_vec());
}

#[test]
fn partitioned_scan_matches_whole_scan() {
    let input = b"aa;1.0\nbb;2.0\ncc;3.0\naa;5.0\n";
    let whole = aggregate_chunk(input);
    let whole_report = render_rows(&sort_rows(project_rows(whole.to_pairs())));

    let parts = chunks(input, 5);
    assert!(parts.len() > 1);
    let mut merged: Table = Table::new();
    for p in &parts {
        let t = aggregate_chunk(p);
        merged.merge(&t);
    }
    let merged_report = render_rows(&sort_rows(project_rows(merged.to_pairs())));
    assert_eq!(whole_report, merged_report);
}

#[test]
fn table_folds_records_per_key() {
    let mut t: Table = Table::new();
    t.add_record(StationId::from_bytes(b"Paris"), 123);
    t.add_record(StationId::from_bytes(b"Paris"), 150);
    t.add_record(StationId::from_bytes(b"London"), -10);
    let pairs = t.to_pairs();
    assert_eq!(pairs.len(), 2);
    assert_eq!(pairs[0].0, b"Paris".to_vec());
    assert_eq!(pairs[0].1.size, 2);
    assert_eq!(pairs[0].1.sum, 273);
    assert_eq!(pairs[1].0, b"London".to_vec());
    assert_eq!(pairs[1].1.min, -10);
}

#[test]
fn rows_sort_lexicographically() {
    let r = Res { min: 0, avg: 0, max: 0, size: 1 };
    let rows = vec![
        (b"Paris".to_vec(), r),
        (b"London".to_vec(), r),
        (b"Lo".to_vec(), r),
    ];
    let sorted = sort_rows(rows);
    assert_eq!(sorted[0].0, b"Lo".to_vec());
    assert_eq!(sorted[1].0, b"London".to_vec());
    assert_eq!(sorted[2].0, b"Paris".to_vec());
}

#[test]
fn rendering_writes_one_fractional_digit() {
    let rows = vec![(b"Paris".to_vec(), Res { min: 123, avg: 137, max: 150, size: 2 })];
    let out = render_rows(&rows);
    assert_eq!(out, b"Paris: 12.3/13.7/15.0 (2)\n".to_vec());
}

#[test]
fn projection_keeps_key_order() {
    let mut a = Acc::default();
    a.add_value(-5);
    let rows = project_rows(vec![(b"k".to_vec(), a)]);
    assert_eq!(rows.len(), 1);
    assert_eq!(rows[0].0, b"k".to_vec());
    assert_eq!(rows[0].1.min, -5);
    assert_eq!(rows[0].1.avg, -5);
    assert_eq!(rows[0].1.size, 1);
}

#[test]
fn three_records_end_to_end() {
    let input = b"Paris;12.3\nLondon;-1.0\nParis;15.0\n";
    let out = run_pipeline(input, 1);
    let expected = b"London: -1.0/-1.0/-1.0 (1)\nParis: 12.3/13.7/15.0 (2)\n";
    assert_eq!(out, expected.to_vec());
}

#[test]
fn pipeline_is_deterministic() {
    let input = b"Paris;12.3\nLondon;-1.0\nParis;15.0\nOslo;0.0\nParis;-9.9\n";
    let first = run_pipeline(input, 1);
    let second = run_pipeline(input, 1);
    assert_eq!(first, second);
    let chunked = run_pipeline(input, 4);
    assert_eq!(first, chunked);
}
