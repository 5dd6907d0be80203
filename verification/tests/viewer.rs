use bvr::actions::ViewDelta;
use bvr::buffer::SegBuffer;
use bvr::colors::{Color, ColorSelector};
use bvr::direction::Direction;
use bvr::filters::{Compositor, Filter, FilterExport, Filters, MaskExport, SearchError};
use bvr::instance::Instance;
use bvr::lineset::{CompositeStrategy, LineSet};
use bvr::viewer::ViewCache;

fn instance(data: &[u8]) -> Instance {
    Instance::new("test".to_string(), SegBuffer::from_bytes(data))
}

#[test]
fn color_selector_steps_through_the_palette() {
    let mut sel = ColorSelector::new(false, true);
    assert_eq!(sel.peek_color(), Color::Indexed(9));
    assert_eq!(sel.next_color(), Color::Indexed(9));
    assert_eq!(sel.next_color(), Color::Indexed(36));
    sel.reset();
    assert_eq!(sel.next_color(), Color::Indexed(9));
}

#[test]
fn color_selector_wraps_like_a_byte() {
    let mut sel = ColorSelector::Color256 { index: 229 };
    assert_eq!(sel.next_color(), Color::Indexed(238));
    assert_eq!(sel, ColorSelector::Color256 { index: 0 });
}

#[test]
fn color_selector_turns_the_hue() {
    let mut sel = ColorSelector::new(true, true);
    assert_eq!(sel.next_color(), Color::Hsl { hue: 0, saturation: 80, lightness: 50 });
    assert_eq!(sel.next_color(), Color::Hsl { hue: 2083, saturation: 80, lightness: 50 });
    assert_eq!(sel.peek_color(), Color::Hsl { hue: 566, saturation: 80, lightness: 50 });
}

#[test]
fn view_shows_rows_from_the_top() {
    let mut inst = instance(b"a\nb\nc\n");
    assert_eq!(inst.visible_line_count(), 4);
    let (rows, last) = inst.update_and_view(2, 80);
    assert_eq!(rows.len(), 2);
    assert_eq!(rows[0].line_number, 0);
    assert_eq!(rows[0].data, "a\n");
    assert_eq!(rows[1].data, "b\n");
    assert_eq!(rows[0].color, Color::White);
    assert!(rows[0].ty.origin);
    assert!(!rows[1].ty.origin);
    assert_eq!(rows[1].start, 0);
    assert_eq!(last, Some(1));
}

#[test]
fn moving_the_cursor_marks_the_row() {
    let mut inst = instance(b"a\nb\nc\n");
    inst.update_and_view(2, 80);
    inst.move_select(Direction::Next, false, ViewDelta::Number(1));
    let (rows, _) = inst.update_and_view(2, 80);
    assert!(!rows[0].ty.origin);
    assert!(rows[1].ty.origin);
    inst.move_select(Direction::Next, true, ViewDelta::Number(1));
    let (rows, last) = inst.update_and_view(2, 80);
    assert_eq!(last, Some(2));
    assert!(rows[0].ty.origin && rows[0].ty.origin_start);
    assert!(rows[1].ty.origin && rows[1].ty.origin_end);
}

#[test]
fn scrolling_past_the_end_stops_at_the_last_row() {
    let mut inst = instance(b"a\nb\nc\n");
    inst.update_and_view(2, 80);
    inst.move_select(Direction::Next, false, ViewDelta::Boundary);
    let (rows, last) = inst.update_and_view(2, 80);
    assert_eq!(last, Some(3));
    assert_eq!(rows.len(), 2);
    assert_eq!(rows[0].data, "c\n");
    assert_eq!(rows[1].data, "");
    assert!(rows[1].ty.origin);
}

#[test]
fn bookmarks_colour_and_filter_the_view() {
    let mut inst = instance(b"a\nb\nc\n");
    inst.update_and_view(3, 80);
    inst.move_select(Direction::Next, false, ViewDelta::Number(1));
    inst.toggle_select_bookmarks();
    let (rows, _) = inst.update_and_view(3, 80);
    assert!(rows[1].ty.bookmarked);
    assert_eq!(rows[1].color, Color::Indexed(170));
    assert_eq!(rows[0].color, Color::White);
    inst.toggle_filter(0);
    assert_eq!(inst.visible_line_count(), 1);
    let (rows, _) = inst.update_and_view(3, 80);
    assert_eq!(rows.len(), 1);
    assert_eq!(rows[0].line_number, 1);
}

#[test]
fn selection_bookmarks_each_line_then_clears_them() {
    let mut inst = instance(b"a\nb\nc\nd\n");
    inst.update_and_view(4, 80);
    inst.move_select(Direction::Next, true, ViewDelta::Number(2));
    inst.toggle_select_bookmarks();
    assert!(inst.compositor().filters().bookmarks().has_line(0));
    assert!(inst.compositor().filters().bookmarks().has_line(2));
    assert!(!inst.compositor().filters().bookmarks().has_line(3));
    inst.toggle_select_bookmarks();
    assert!(!inst.compositor().filters().bookmarks().has_line(1));
}

#[test]
fn search_filters_compose_with_bookmarks() {
    let mut inst = instance(b"apple\nbanana\ncherry\n");
    let mut sel = ColorSelector::new(false, true);
    assert_eq!(inst.add_search_filter("an", false, &mut sel), Ok(()));
    inst.toggle_bookmark_line_number(2);
    inst.toggle_filter(0);
    let (rows, _) = inst.update_and_view(5, 80);
    let shown: Vec<usize> = rows.iter().map(|r| r.line_number).collect();
    assert_eq!(shown, vec![1, 2]);
    assert_eq!(rows[0].color, Color::Indexed(9));
    assert_eq!(inst.export_file(), Ok(b"banana\ncherry\n".to_vec()));
    inst.set_composite_strategy(CompositeStrategy::Intersection);
    let (rows, _) = inst.update_and_view(5, 80);
    assert!(rows.is_empty());
}

#[test]
fn search_errors() {
    let mut inst = instance(b"apple\n");
    let mut sel = ColorSelector::new(false, true);
    assert_eq!(inst.add_search_filter("(", false, &mut sel), Err(SearchError::Invalid));
    assert_eq!(sel.peek_color(), Color::Indexed(9));
    assert_eq!(inst.add_search_filter("(", true, &mut sel), Ok(()));
    assert_eq!(sel.peek_color(), Color::Indexed(36));
}

#[test]
fn nearest_index_finds_the_row_at_or_before() {
    let mut inst = instance(b"a\nb\nc\nd\n");
    let mut sel = ColorSelector::new(false, true);
    inst.add_search_filter("[bd]", false, &mut sel).unwrap();
    inst.toggle_filter(0);
    inst.toggle_filter(1);
    assert_eq!(inst.nearest_index(3), Some(0));
    assert_eq!(inst.nearest_index(1), Some(0));
    assert_eq!(inst.nearest_index(9), Some(1));
    let all = instance(b"a\nb\n");
    assert_eq!(all.nearest_index(0), None);
    assert_eq!(all.nearest_index(2), Some(1));
}

#[test]
fn view_cache_keeps_the_top_line_on_a_new_set() {
    let buf = SegBuffer::from_bytes(b"a\nb\nc\nd\n");
    let mut view = ViewCache::new(buf.all_line_matches());
    view.viewport_mut().fit_view(2, 10);
    view.viewport_mut().top_to(2);
    view.set_end_index(5);
    view.cache_view(&buf);
    assert_eq!(view.cached_rows().len(), 2);
    assert_eq!(view.cached_rows()[0].line_number, 2);
    view.insert_new_line_set(LineSet::Subset { buf: vec![0, 2, 3], completed: true, min_len: 0 });
    assert_eq!(view.viewport().top(), 1);
    assert!(view.cached_rows().is_empty());
}

#[test]
fn cursor_is_brought_into_the_viewport() {
    let mut inst = instance(b"a\nb\nc\nd\ne\nf\n");
    inst.update_and_view(2, 80);
    inst.viewport_mut().top_to(3);
    inst.move_selected_into_view();
    assert_eq!(inst.cursor(), bvr::cursor::Cursor::Singleton(3));
    inst.viewport_mut().top_to(0);
    inst.move_selected_into_view();
    assert_eq!(inst.cursor(), bvr::cursor::Cursor::Singleton(1));
}

#[test]
fn saved_filters_carry_pattern_state_and_colour() {
    let mut inst = instance(b"apple\nbanana\ncherry\n");
    let mut sel = ColorSelector::new(false, true);
    inst.add_search_filter("an", false, &mut sel).unwrap();
    inst.add_search_filter("rr", false, &mut sel).unwrap();
    inst.toggle_filter(3);
    let saved = inst.compositor().export_user_filters();
    assert_eq!(saved.len(), 2);
    assert_eq!(saved[0].mask, MaskExport::Regex("an".to_string()));
    assert!(saved[0].enabled);
    assert_eq!(saved[0].color, Color::Indexed(9));
    assert_eq!(saved[1].mask, MaskExport::Regex("rr".to_string()));
    assert!(!saved[1].enabled);
    assert_eq!(saved[1].color, Color::Indexed(36));
}

#[test]
fn imported_filters_search_the_new_buffer() {
    let mut inst = instance(b"pear\nplum\npeach\n");
    let exports = vec![
        FilterExport { mask: MaskExport::Regex("pe".to_string()), enabled: true, color: Color::Indexed(36) },
        FilterExport { mask: MaskExport::Regex("um".to_string()), enabled: false, color: Color::White },
    ];
    assert_eq!(inst.import_user_filters(exports), Ok(()));
    let filters = inst.compositor().filters();
    assert_eq!(filters.len(), 4);
    let first = filters.get(2).unwrap();
    assert_eq!(first.mask(), "pe");
    assert!(first.is_enabled());
    assert_eq!(*first.color(), Color::Indexed(36));
    let second = filters.get(3).unwrap();
    assert_eq!(second.mask(), "um");
    assert!(!second.is_enabled());
    inst.toggle_filter(0);
    inst.toggle_filter(1);
    let (rows, _) = inst.update_and_view(5, 80);
    let shown: Vec<usize> = rows.iter().map(|r| r.line_number).collect();
    assert_eq!(shown, vec![0, 2]);
}

#[test]
fn import_stops_at_a_bad_pattern() {
    let mut inst = instance(b"pear\n");
    let exports = vec![
        FilterExport { mask: MaskExport::Regex("ea".to_string()), enabled: true, color: Color::White },
        FilterExport { mask: MaskExport::Regex("(".to_string()), enabled: true, color: Color::White },
        FilterExport { mask: MaskExport::Regex("p".to_string()), enabled: true, color: Color::White },
    ];
    assert_eq!(inst.import_user_filters(exports), Err(SearchError::Invalid));
    assert_eq!(inst.compositor().filters().len(), 3);
}

#[test]
fn a_filter_converts_to_its_saved_form_and_back() {
    let buf = SegBuffer::from_bytes(b"x1\ny2\nx3\n");
    let export = FilterExport { mask: MaskExport::Regex("x".to_string()), enabled: false, color: Color::Indexed(5) };
    let filter = Filter::from_export(&buf, export).unwrap();
    assert!(filter.is_search());
    let back = filter.to_export();
    assert_eq!(back.mask, MaskExport::Regex("x".to_string()));
    assert!(!back.enabled);
    assert_eq!(back.color, Color::Indexed(5));
    let bad = FilterExport { mask: MaskExport::Regex("[".to_string()), enabled: true, color: Color::White };
    assert!(matches!(Filter::<String, Color>::from_export(&buf, bad), Err(SearchError::Invalid)));
}

#[test]
fn compositor_search_filter_takes_the_next_colour() {
    let buf = SegBuffer::from_bytes(b"one\ntwo\nthree\n");
    let filters = Filters::new(
        Filter::all("All Lines".to_string(), Color::White),
        Filter::bookmark("Bookmarks".to_string(), Color::Indexed(4)),
    );
    let mut c = Compositor::new(buf.all_line_matches(), filters);
    let mut sel = ColorSelector::new(false, true);
    assert_eq!(c.add_search_filter(&buf, "t", false, &mut sel), Ok(()));
    assert_eq!(c.filters().len(), 3);
    let f = c.filters().get(2).unwrap();
    assert_eq!(f.mask(), "t");
    assert_eq!(*f.color(), Color::Indexed(9));
    assert_eq!(f.len(), Some(2));
    assert_eq!(c.add_search_filter(&buf, "a.b", true, &mut sel), Ok(()));
    assert_eq!(c.filters().get(3).unwrap().mask(), "a\\.b");
    assert_eq!(c.filters().get(3).unwrap().len(), Some(0));
    assert_eq!(c.add_search_filter(&buf, "(", false, &mut sel), Err(SearchError::Invalid));
    assert_eq!(c.filters().len(), 4);
}
