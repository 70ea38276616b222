use station_stats::chunk::{next_chunk, split_chunks, ChunkError, Chunks};
use station_stats::record::{is_valid_reading, parse_line, parse_reading, try_parse_line};

#[test]
fn test_parse_line() {
    let line = "Station Name;-23.4".as_bytes();
    let (station, reading) = parse_line(line);
    assert_eq!(station, "Station Name".as_bytes());
    assert_eq!(reading, -234);

    let line = "Station Name;-1.5".as_bytes();
    let (station, reading) = parse_line(line);
    assert_eq!(station, "Station Name".as_bytes());
    assert_eq!(reading, -15);

    let line = "Station Name;56.7".as_bytes();
    let (station, reading) = parse_line(line);
    assert_eq!(station, "Station Name".as_bytes());
    assert_eq!(reading, 567);

    let line = "Station Name;99.9".as_bytes();
    let (station, reading) = parse_line(line);
    assert_eq!(station, "Station Name".as_bytes());
    assert_eq!(reading, 999);
}

#[test]
fn test_next_chunk() {
    let data = b"A\nBar\nBaz\n";

    let chunk_1 = next_chunk(data, 0, 7);
    let chunk_2 = next_chunk(data, chunk_1.len(), 7);
    let chunk_3 = next_chunk(data, chunk_1.len() + chunk_2.len(), 7);

    assert_eq!(chunk_1, b"A\nBar\n");
    assert_eq!(chunk_2, b"Baz\n");
    assert_eq!(chunk_3, b"");
}

#[test]
fn readings_scale_by_ten() {
    assert_eq!(parse_reading(b"5.0"), 50);
    assert_eq!(parse_reading(b"0.0"), 0);
    assert_eq!(parse_reading(b"-0.1"), -1);
    assert_eq!(parse_reading(b"-99.9"), -999);
    assert_eq!(parse_reading(b"12.3"), 123);
}

#[test]
fn reading_shapes() {
    assert!(is_valid_reading(b"1.2"));
    assert!(is_valid_reading(b"-12.3"));
    assert!(!is_valid_reading(b"123.4"));
    assert!(!is_valid_reading(b"1.23"));
    assert!(!is_valid_reading(b"12"));
    assert!(!is_valid_reading(b"-"));
    assert!(!is_valid_reading(b""));
    assert!(!is_valid_reading(b"1x2"));
}

#[test]
fn try_parse_line_rejects_malformed() {
    assert_eq!(try_parse_line(b"Oslo;-3.2"), Some((&b"Oslo"[..], -32)));
    assert_eq!(try_parse_line(b"a;b;1.0"), None);
    assert_eq!(try_parse_line(b"Oslo 3.2"), None);
    assert_eq!(try_parse_line(b"Oslo;3.25"), None);
    assert_eq!(try_parse_line(b";1.0"), Some((&b""[..], 10)));
}

#[test]
fn chunks_reassemble_buffer() {
    let data = b"A;1.0\nBB;2.0\nCCC;3.0\nD;4.0";
    for size in 8..40 {
        let chunks = split_chunks(data, size).unwrap();
        let joined: Vec<u8> = chunks.concat();
        assert_eq!(joined, data.to_vec());
        for (i, c) in chunks.iter().enumerate() {
            assert!(!c.is_empty() && c.len() <= size);
            if i + 1 < chunks.len() {
                assert_eq!(*c.last().unwrap(), b'\n');
            }
        }
    }
}

#[test]
fn chunk_line_too_long() {
    let data = b"A;1.0\nLongStation;2.0\nB;3.0\n";
    assert_eq!(split_chunks(data, 8), Err(ChunkError::LineTooLong { offset: 6 }));
    assert_eq!(split_chunks(b"abc", 0), Err(ChunkError::LineTooLong { offset: 0 }));
    assert_eq!(split_chunks(b"", 0), Ok(vec![]));
}

#[test]
fn chunks_iterate_then_end() {
    let data = b"A\nBar\nBaz\n";
    let mut chunks = Chunks::from_source(data, 7);
    assert_eq!(chunks.next(), Ok(Some(&b"A\nBar\n"[..])));
    assert_eq!(chunks.next(), Ok(Some(&b"Baz\n"[..])));
    assert_eq!(chunks.next(), Ok(None));
    assert_eq!(chunks.next(), Ok(None));

    let mut short = Chunks::from_source(b"Toolong\n", 3);
    assert_eq!(short.next(), Err(ChunkError::LineTooLong { offset: 0 }));
}
