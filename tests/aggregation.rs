use station_stats::aggregate::{aggregate_chunk, ParseError};
use station_stats::data::Data;
use station_stats::measurements::Measurements;
use station_stats::run::{aggregate_buffer, RunError};

fn m(min: i64, max: i64, sum: i64, n: usize) -> Measurements {
    Measurements { min, max, sum, n }
}

#[test]
fn three_records_end_to_end() {
    let data = b"A;10.0\nB;-5.5\nA;20.0\n";
    let out = aggregate_buffer(data, 1024).unwrap();
    assert_eq!(out.len(), 2);
    assert_eq!(out[0].0, b"A");
    assert_eq!(out[0].1, m(100, 200, 300, 2));
    assert_eq!(out[1].0, b"B");
    assert_eq!(out[1].1, m(-55, -55, -55, 1));
    let avg = |m: &Measurements| m.sum as f64 / m.n as f64 / 10.0;
    assert_eq!(out[0].1.min as f64 / 10.0, 10.0);
    assert_eq!(out[0].1.max as f64 / 10.0, 20.0);
    assert_eq!(avg(&out[0].1), 15.0);
    assert_eq!(out[1].1.min as f64 / 10.0, -5.5);
    assert_eq!(avg(&out[1].1), -5.5);
}

#[test]
fn line_longer_than_chunk_fails() {
    let data = b"A;10.0\nAVeryLongStationName;1.0\n";
    assert_eq!(aggregate_buffer(data, 10), Err(RunError::LineTooLong { offset: 7 }));
}

#[test]
fn lone_terminator_chunk_is_empty() {
    let d = aggregate_chunk(b"\n").unwrap();
    assert!(d.into_sorted().is_empty());
    let d = aggregate_chunk(b"").unwrap();
    assert!(d.into_sorted().is_empty());
}

#[test]
fn bad_line_is_reported() {
    let chunk = b"A;1.0\nnoseparator\n";
    assert!(matches!(aggregate_chunk(chunk), Err(ParseError::BadLine { offset: 6 })));
    let data = b"A;1.0\nB;2.0\nC;x\n";
    assert_eq!(aggregate_buffer(data, 6), Err(RunError::BadLine { chunk: 2, offset: 0 }));
}

#[test]
fn result_independent_of_chunk_size() {
    let data = b"Oslo;1.0\nRome;20.5\nOslo;-3.0\nBern;9.9\nRome;-0.5\nOslo;7.7\n";
    let whole = aggregate_buffer(data, data.len()).unwrap();
    for size in 11..data.len() {
        assert_eq!(aggregate_buffer(data, size).unwrap(), whole);
    }
    let names: Vec<&[u8]> = whole.iter().map(|e| e.0).collect();
    assert_eq!(names, vec![&b"Bern"[..], &b"Oslo"[..], &b"Rome"[..]]);
    assert_eq!(whole[1].1, m(-30, 77, 57, 3));
}

#[test]
fn measurements_record_and_merge() {
    let mut a = Measurements::new(15);
    assert_eq!(a, m(15, 15, 15, 1));
    a.record(-20);
    a.record(40);
    assert_eq!(a, m(-20, 40, 35, 3));

    let b = m(-50, 10, -40, 2);
    let c = m(0, 99, 99, 1);
    let mut ab = a;
    ab.merge(b);
    let mut ba = b;
    ba.merge(a);
    assert_eq!(ab, ba);
    assert_eq!(ab, m(-50, 40, -5, 5));

    let mut ab_c = ab;
    ab_c.merge(c);
    let mut bc = b;
    bc.merge(c);
    let mut a_bc = a;
    a_bc.merge(bc);
    assert_eq!(ab_c, a_bc);
}

#[test]
fn sums_wrap_around() {
    let mut a = m(0, 0, i64::MAX, usize::MAX);
    a.record(1);
    assert_eq!(a.sum, i64::MIN);
    assert_eq!(a.n, 0);
}

#[test]
fn data_merge_by_station_bytes() {
    let buf = b"X;1.0\nY;2.0\nX;3.0\nZ;-1.0\n";
    let mut left = Data::new();
    left.record(&buf[0..1], 10);
    left.record(&buf[6..7], 20);
    let mut right = Data::new();
    right.record(&buf[12..13], 30);
    right.record(&buf[18..19], -10);
    left.merge(right);
    let out = left.into_sorted();
    assert_eq!(out.len(), 3);
    assert_eq!(out[0], (&b"X"[..], m(10, 30, 40, 2)));
    assert_eq!(out[1], (&b"Y"[..], m(20, 20, 20, 1)));
    assert_eq!(out[2], (&b"Z"[..], m(-10, -10, -10, 1)));
}

#[test]
fn sorted_bytewise() {
    let data = b"b;1.0\nB;1.0\nab;1.0\na;1.0\n\xc3\xa9;1.0\n";
    let out = aggregate_buffer(data, 64).unwrap();
    let names: Vec<&[u8]> = out.iter().map(|e| e.0).collect();
    assert_eq!(names, vec![&b"B"[..], &b"a"[..], &b"ab"[..], &b"b"[..], &b"\xc3\xa9"[..]]);
}
