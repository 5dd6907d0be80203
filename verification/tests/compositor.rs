use bvr::actions::ViewDelta;
use bvr::cursor::{Cursor, SelectionOrigin};
use bvr::direction::Direction;
use bvr::filters::{Compositor, Filter, FilterData, Filters};
use bvr::line_index::index_buffer;
use bvr::lineset::{CompositeStrategy, LineSet};

fn search(mask: &'static str, lines: Vec<usize>) -> Filter<&'static str, u8> {
    Filter::from_filter(mask, 3, FilterData::Search(LineSet::from(lines)))
}

fn compositor() -> Compositor<&'static str, u8> {
    let all = LineSet::all(index_buffer(b"0\n1\n2\n3\n4\n5\n6\n7\n8\n9"));
    let filters = Filters::new(Filter::all("All Lines", 0), Filter::bookmark("Bookmarks", 1));
    let mut c = Compositor::new(all, filters);
    c.add_filter(search("a", vec![1, 4, 7]));
    c.add_filter(search("b", vec![2, 4, 8]));
    c
}

#[test]
fn filters_list_in_order() {
    let c = compositor();
    assert_eq!(c.filters().len(), 4);
    assert_eq!(*c.filters().get(0).unwrap().mask(), "All Lines");
    assert_eq!(*c.filters().get(1).unwrap().mask(), "Bookmarks");
    assert_eq!(*c.filters().get(3).unwrap().mask(), "b");
    assert!(c.filters().get(4).is_none());
    assert_eq!(c.filters().get(2).unwrap().len(), Some(3));
    assert_eq!(c.filters().get(0).unwrap().len(), None);
    assert!(c.filters().get(0).unwrap().has_line(123));
}

#[test]
fn composite_of_all_lines_while_all_is_on() {
    let c = compositor();
    assert!(!c.needs_composite());
    let set = c.create_composite();
    assert_eq!(set.len(), 10);
}

#[test]
fn composite_of_enabled_filters() {
    let mut c = compositor();
    c.toggle_filter(0);
    assert!(c.needs_composite());
    let union = c.create_composite();
    assert_eq!(union.into_inner().as_slice(), &[1, 2, 4, 7, 8]);
    c.set_strategy(CompositeStrategy::Intersection);
    // The empty bookmarks take part in the intersection.
    let both = c.create_composite();
    assert!(!both.has_line(4));
    assert_eq!(both.snapshot().unwrap().as_slice(), &[] as &[usize]);
    c.toggle_filter(1);
    let without_bookmarks = c.create_composite();
    assert_eq!(without_bookmarks.snapshot().unwrap().as_slice(), &[4]);
}

#[test]
fn bookmarks_join_the_composite() {
    let mut c = compositor();
    c.toggle_filter(0);
    c.toggle_bookmark(5);
    assert!(c.filters().bookmarks().has_line(5));
    let set = c.create_composite();
    assert_eq!(set.snapshot().unwrap().as_slice(), &[1, 2, 4, 5, 7, 8]);
    c.toggle_bookmark(5);
    assert!(!c.filters().bookmarks().has_line(5));
}

#[test]
fn jumps_between_matches() {
    let mut c = compositor();
    assert_eq!(c.compute_jump(4, Direction::Next), Some(7));
    assert_eq!(c.compute_jump(4, Direction::Back), Some(2));
    assert_eq!(c.compute_jump(8, Direction::Next), None);
    assert_eq!(c.compute_jump(1, Direction::Back), None);
    c.toggle_filter(3);
    assert_eq!(c.compute_jump(4, Direction::Next), Some(7));
    assert_eq!(c.compute_jump(4, Direction::Back), Some(1));
    c.toggle_filter(0);
    assert_eq!(c.compute_jump(4, Direction::Next), Some(5));
    assert_eq!(c.compute_jump(0, Direction::Back), Some(0));
}

#[test]
fn cursor_moves_over_filters() {
    let mut c = compositor();
    let shown = c.update_and_filter_view(2);
    assert_eq!(shown, 0..2);
    c.move_select(Direction::Next, false, ViewDelta::Number(3));
    assert_eq!(c.cursor().state(), Cursor::Singleton(3));
    assert_eq!(c.viewport().top(), 2);
    c.move_select(Direction::Next, false, ViewDelta::Boundary);
    assert_eq!(c.cursor().state(), Cursor::Singleton(3));
    c.move_select(Direction::Back, true, ViewDelta::Page);
    assert_eq!(c.cursor().state(), Cursor::Selection(1, 3, SelectionOrigin::Left));
    assert_eq!(c.viewport().top(), 1);
    c.toggle_select_filters();
    assert!(c.filters().get(0).unwrap().is_enabled());
    assert!(!c.filters().get(1).unwrap().is_enabled());
    assert!(!c.filters().get(3).unwrap().is_enabled());
}

#[test]
fn removing_selected_filters_keeps_builtins() {
    let mut c = compositor();
    c.add_filter(search("c", vec![9]));
    c.move_select(Direction::Next, true, ViewDelta::Boundary);
    assert_eq!(c.cursor().state(), Cursor::Selection(0, 4, SelectionOrigin::Right));
    c.remove_select_filters();
    assert_eq!(c.filters().len(), 2);
    assert_eq!(c.cursor().state(), Cursor::Selection(0, 1, SelectionOrigin::Right));
}

#[test]
fn removing_single_filter() {
    let mut c = compositor();
    c.move_select(Direction::Next, false, ViewDelta::Number(2));
    c.remove_select_filters();
    assert_eq!(c.filters().len(), 3);
    assert_eq!(*c.filters().get(2).unwrap().mask(), "b");
}

#[test]
fn clearing_filters() {
    let mut c = compositor();
    c.toggle_bookmark(3);
    let mut filters = Filters::new(Filter::all("All", 0u8), Filter::bookmark("Marks", 1u8));
    filters.push(Filter::from_filter("x", 2, FilterData::Search(LineSet::empty())));
    filters.add_bookmark(4);
    filters.clear();
    assert_eq!(filters.len(), 2);
    assert!(!filters.bookmarks().has_line(4));
    assert!(c.filters().bookmarks().has_line(3));
}

#[test]
fn positions_translate_to_lines() {
    let a = search("a", vec![1, 4, 7]);
    assert_eq!(a.translate_to_file_line(1), Some(4));
    assert_eq!(a.translate_to_file_line(3), None);
    let all: Filter<&'static str, u8> = Filter::all("All Lines", 0);
    assert_eq!(all.translate_to_file_line(5), Some(5));
    let mut c = compositor();
    c.toggle_bookmark(6);
    c.toggle_bookmark(2);
    let marks = c.filters().get(1).unwrap();
    assert_eq!(marks.translate_to_file_line(0), Some(2));
    assert_eq!(marks.translate_to_file_line(1), Some(6));
    assert_eq!(c.filters().bookmarks().get(2), None);
}

#[test]
fn get_mut_reaches_one_filter() {
    let mut c = compositor();
    let filters = c.filters_mut();
    assert!(filters.get_mut(4).is_none());
    filters.get_mut(3).unwrap().toggle();
    assert!(!filters.get(3).unwrap().is_enabled());
    assert!(filters.get(2).unwrap().is_enabled());
    filters.get_mut(0).unwrap().toggle();
    assert!(!filters.get(0).unwrap().is_enabled());
}
