use bvr::line_index::{index_buffer, BufferIndex, LineIndexWriter};
use bvr::lineset::{BufferSearch, CompositeStrategy, LineSet};

#[test]
fn index_buffer_records_line_starts() {
    let idx = index_buffer(b"ab\ncde\n\nf");
    assert_eq!(idx.line_count(), 4);
    assert_eq!(idx.data_of_line(0), Some(0));
    assert_eq!(idx.data_of_line(1), Some(3));
    assert_eq!(idx.data_of_line(2), Some(7));
    assert_eq!(idx.data_of_line(3), Some(8));
    assert_eq!(idx.data_of_line(4), Some(9));
    assert_eq!(idx.data_of_line(5), None);
    assert!(idx.is_complete());
}

#[test]
fn line_of_data_inverts_data_of_line() {
    let idx = index_buffer(b"first\nsecond\nthird");
    for line in 0..idx.line_count() {
        let start = idx.data_of_line(line).unwrap();
        assert_eq!(idx.line_of_data(start), Some(line));
    }
    assert_eq!(idx.line_of_data(8), Some(1));
    assert_eq!(idx.line_of_data(100), None);
}

#[test]
fn empty_buffer_has_one_empty_line() {
    let idx = index_buffer(b"");
    assert_eq!(idx.line_count(), 1);
    assert_eq!(idx.line_of_data(0), None);
}

#[test]
fn writer_indexes_chunks() {
    let mut w = LineIndexWriter::new();
    w.push(0);
    w.index_chunk(0, b"a\nb");
    w.index_chunk(3, b"c\nd\n");
    w.push(7);
    let idx = w.finish();
    assert_eq!(idx.line_count(), 4);
    assert_eq!(idx.data_of_line(2), Some(5));
    assert_eq!(idx.data_of_line(3), Some(7));
    assert_eq!(BufferIndex::line_of_data(&idx, 4), Some(1));
}

#[test]
fn writer_handles_offsets_past_four_gigabytes() {
    let mut w = LineIndexWriter::new();
    w.push(0);
    w.push(5_000_000_000);
    w.push(5_000_000_010);
    let idx = w.finish();
    assert_eq!(idx.data_of_line(1), Some(5_000_000_000));
    assert_eq!(idx.data_of_line(2), Some(5_000_000_010));
    assert_eq!(idx.line_of_data(5_000_000_003), Some(1));
    assert_eq!(idx.upper_bits(2), 4_294_967_296);
}

#[test]
fn all_lines_set() {
    let set = LineSet::all(index_buffer(b"a\nb\nc"));
    assert!(set.is_all());
    assert_eq!(set.len(), 3);
    assert_eq!(set.get(2), Some(2));
    assert_eq!(set.get(3), None);
    assert_eq!(set.find(1), Some(1));
    assert!(set.has_line(0));
    assert!(!set.has_line(3));
    assert_eq!(set.nearest_forward(1), Some(2));
    assert_eq!(set.nearest_forward(2), Some(3));
    assert_eq!(set.nearest_forward(3), None);
    assert_eq!(set.nearest_backward(0), None);
    assert_eq!(set.nearest_backward(2), Some(1));
    assert!(set.snapshot().is_none());
}

#[test]
fn subset_lookups() {
    let set = LineSet::from(vec![2, 5, 9]);
    assert!(!set.is_all());
    assert!(set.is_complete());
    assert_eq!(set.len(), 3);
    assert_eq!(set.find(5), Some(1));
    assert_eq!(set.find(6), None);
    assert!(set.find(9).is_some());
    assert!(BufferSearch::find(&set, 2));
    assert_eq!(set.nearest_forward(5), Some(9));
    assert_eq!(set.nearest_forward(0), Some(2));
    assert_eq!(set.nearest_forward(20), Some(9));
    assert_eq!(set.nearest_backward(5), Some(2));
    assert_eq!(set.nearest_backward(1), Some(2));
    assert_eq!(set.nearest_backward(10), Some(9));
    assert_eq!(set.snapshot().unwrap().as_slice(), &[2, 5, 9]);
}

#[test]
fn empty_set() {
    let set = LineSet::empty();
    assert!(set.is_empty());
    assert_eq!(set.nearest_forward(1), None);
    assert_eq!(set.nearest_backward(1), None);
    assert_eq!(set.get(0), None);
}

#[test]
fn compose_none_and_one() {
    let none = LineSet::compose(vec![], true, CompositeStrategy::Union).unwrap();
    assert!(none.is_empty());
    let one = LineSet::compose(vec![LineSet::from(vec![4, 8])], true, CompositeStrategy::Intersection)
        .unwrap();
    assert_eq!(one.into_inner().as_slice(), &[4, 8]);
}

#[test]
fn union_reports_largest_length() {
    let u = LineSet::compose(
        vec![LineSet::from(vec![1, 2, 3]), LineSet::from(vec![2, 3])],
        false,
        CompositeStrategy::Union,
    )
    .unwrap();
    assert_eq!(u.len(), 3);
    assert!(u.is_complete());
    let i = LineSet::compose(
        vec![LineSet::from(vec![1, 2, 3]), LineSet::from(vec![2, 3, 7])],
        true,
        CompositeStrategy::Intersection,
    )
    .unwrap();
    assert_eq!(i.len(), 2);
    for x in i.into_inner().as_slice() {
        assert!(u.has_line(*x));
    }
}

#[test]
fn compose_with_all_lines() {
    let all = LineSet::all(index_buffer(b"a\nb\nc\nd"));
    let i = LineSet::compose(vec![all, LineSet::from(vec![1, 3, 9])], true, CompositeStrategy::Intersection)
        .unwrap();
    assert_eq!(i.into_inner().as_slice(), &[1, 3]);
}
