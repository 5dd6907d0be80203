use bvr::buffer::{trim_end, BufferMap, SegBuffer};
use bvr::err::Error;
use bvr::lineset::LineSet;

fn subset(lines: Vec<usize>, completed: bool) -> LineSet {
    LineSet::Subset { buf: lines, completed, min_len: 0 }
}

#[test]
fn map_places_offsets_in_segments() {
    let map = BufferMap::from_bytes(b"abcdef", 4);
    assert_eq!(map.id_of_data(0), 0);
    assert_eq!(map.id_of_data(3), 0);
    assert_eq!(map.id_of_data(5), 1);
    assert_eq!(map.data_range_of_id(1), 4..8);
    assert_eq!(map.fetch(0).map(|s| s.data().clone()), Some(b"abcd".to_vec()));
    assert_eq!(map.fetch(1).map(|s| s.data().clone()), Some(b"ef".to_vec()));
    assert!(map.fetch(2).is_none());
}

#[test]
fn lines_within_and_across_segments() {
    let buf = SegBuffer::with_segment_size(b"ab\ncd\nefg", 4);
    assert_eq!(buf.line_count(), 3);
    assert_eq!(buf.get_bytes(0), Some(b"ab\n".to_vec()));
    assert_eq!(buf.get_bytes(1), Some(b"cd\n".to_vec()));
    assert_eq!(buf.get_bytes(2), Some(b"efg".to_vec()));
    assert_eq!(buf.get_bytes(3), None);
    assert_eq!(buf.get_line(1).as_deref(), Some("cd\n"));
}

#[test]
fn line_ending_at_a_missing_segment_is_not_read() {
    // Eight bytes fill two segments of four; the last line ends where a
    // third segment would start.
    let buf = SegBuffer::with_segment_size(b"ab\ncd\nef", 4);
    assert_eq!(buf.line_count(), 3);
    assert_eq!(buf.get_bytes(2), None);
    assert_eq!(buf.get_bytes(1), Some(b"cd\n".to_vec()));
}

#[test]
fn invalid_utf8_is_replaced() {
    let buf = SegBuffer::from_bytes(b"a\xffb\nok");
    assert_eq!(buf.get_line(0).as_deref(), Some("a\u{FFFD}b\n"));
    assert_eq!(buf.get_line(1).as_deref(), Some("ok"));
}

#[test]
fn segment_walk_covers_the_data() {
    let data = b"ab\ncd\nefg";
    let buf = SegBuffer::with_segment_size(data, 4);
    let mut iter = buf.segment_iter();
    let mut total = Vec::new();
    let mut starts = Vec::new();
    while let Some(chunk) = iter.next() {
        assert_eq!(chunk.range.start as usize, total.len());
        starts.push(chunk.range.start);
        total.extend_from_slice(&chunk.data);
    }
    assert_eq!(total, data.to_vec());
    assert_eq!(starts, vec![0, 3, 6]);
    assert_eq!(iter.remaining_range().start, 3);
}

#[test]
fn segment_walk_in_one_segment_is_one_chunk() {
    let data = b"one\ntwo\nthree\n";
    let buf = SegBuffer::from_bytes(data);
    let mut iter = buf.segment_iter();
    let chunk = iter.next().unwrap();
    assert_eq!(chunk.range, 0..data.len() as u64);
    assert_eq!(chunk.data, data.to_vec());
    assert!(iter.next().is_none());
}

#[test]
fn write_bytes_of_every_line_and_of_some() {
    let buf = SegBuffer::with_segment_size(b"ab\ncd\nefg", 4);
    assert_eq!(buf.write_bytes(&buf.all_line_matches()), Ok(b"ab\ncd\nefg".to_vec()));
    assert_eq!(buf.write_bytes(&subset(vec![0, 2], true)), Ok(b"ab\nefg".to_vec()));
    assert_eq!(buf.write_bytes(&subset(vec![0], false)), Err(Error::InProgress));
}

#[test]
fn write_to_string_trims_the_end() {
    let buf = SegBuffer::with_segment_size(b"ab\ncd\nefg  \n", 4);
    assert_eq!(buf.write_to_string(&subset(vec![1], true)), Ok("cd".to_string()));
    assert_eq!(buf.write_to_string(&buf.all_line_matches()), Ok("ab\ncd\nefg".to_string()));
    assert_eq!(buf.write_to_string(&subset(vec![1], false)), Err(Error::InProgress));
    let bad = SegBuffer::from_bytes(b"\xff\n");
    assert_eq!(bad.write_to_string(&bad.all_line_matches()), Err(Error::Io));
}

#[test]
fn trim_end_drops_trailing_whitespace() {
    assert_eq!(trim_end("ab \n\t"), "ab");
    assert_eq!(trim_end("  "), "");
    assert_eq!(trim_end("a b"), "a b");
}

#[test]
fn readability_of_lines() {
    let buf = SegBuffer::with_segment_size(b"ab\ncd\nef", 4);
    assert!(buf.lines_readable(&subset(vec![0, 1], true)));
    assert!(!buf.lines_readable(&subset(vec![2], true)));
    assert!(buf.lines_readable(&buf.all_line_matches()));
}

#[test]
fn every_line_rejoins_into_the_data() {
    let buf = SegBuffer::with_segment_size(b"ab\ncd\nefg", 4);
    let all = buf.write_bytes(&buf.all_line_matches());
    let each = buf.write_bytes(&subset(vec![0, 1, 2], true));
    assert_eq!(all, each);
}

#[test]
fn lines_do_not_depend_on_segment_size() {
    let data = b"first\nsecond line\nthird\n";
    let small = SegBuffer::with_segment_size(data, 3);
    let large = SegBuffer::from_bytes(data);
    for ln in 0..small.line_count() {
        if let (Some(a), Some(b)) = (small.get_bytes(ln), large.get_bytes(ln)) {
            assert_eq!(a, b);
        }
    }
    assert_eq!(small.get_bytes(1), Some(b"second line\n".to_vec()));
}

#[test]
fn walk_stops_at_an_unreadable_line() {
    let buf = SegBuffer::with_segment_size(b"ab\ncd\nef", 4);
    let mut iter = buf.segment_iter();
    assert_eq!(iter.next().map(|c| c.range), Some(0..3));
    assert_eq!(iter.next().map(|c| c.range), Some(3..6));
    assert!(iter.next().is_none());
    assert_eq!(iter.remaining_range().start, 2);
}
