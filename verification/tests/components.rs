use bvr::config::FilterSaveData;
use bvr::cowvec::{CowVecSnapshot, SplitCowVecSnapshot};
use bvr::cursor::{Cursor, CursorState, SelectionOrigin};
use bvr::direction::{Direction, HDirection, VDirection};
use bvr::filters::Bookmarks;
use bvr::ftree::FenwickTree;
use bvr::history::History;
use bvr::inflight::{Composite, IncompleteComposite, Inflight, InflightImpl};
use bvr::mux::{MultiplexerApp, MultiplexerMode};
use bvr::segment::SegmentRaw;
use bvr::status::StatusApp;
use bvr::viewport::Viewport;

#[test]
fn directions_follow_conditions() {
    assert_eq!(Direction::back_if(true), Direction::Back);
    assert_eq!(Direction::back_if(false), Direction::Next);
    assert_eq!(HDirection::left_if(true), HDirection::Left);
    assert_eq!(HDirection::left_if(false), HDirection::Right);
    assert_eq!(VDirection::up_if(true), VDirection::Up);
    assert_eq!(VDirection::up_if(false), VDirection::Down);
}

#[test]
fn selection_origin_flips_back() {
    assert_eq!(SelectionOrigin::Left.flip(), SelectionOrigin::Right);
    assert_eq!(SelectionOrigin::Left.flip().flip(), SelectionOrigin::Left);
}

#[test]
fn cursor_range_orders_positions() {
    assert_eq!(Cursor::new_range(2, 5, SelectionOrigin::Right), Cursor::Selection(2, 5, SelectionOrigin::Right));
    assert_eq!(Cursor::new_range(5, 2, SelectionOrigin::Right), Cursor::Selection(2, 5, SelectionOrigin::Left));
    assert_eq!(Cursor::new_range(3, 3, SelectionOrigin::Left), Cursor::Singleton(3));
}

#[test]
fn cursor_state_moves_and_clamps() {
    let mut c = CursorState::new();
    c.forward(true, |i| i + 4);
    assert_eq!(c.state(), Cursor::Selection(0, 4, SelectionOrigin::Right));
    c.back(true, |i| i - 1);
    assert_eq!(c.state(), Cursor::Selection(0, 3, SelectionOrigin::Right));
    c.clamp(2);
    assert_eq!(c.state(), Cursor::Selection(0, 2, SelectionOrigin::Right));
    c.back(false, |i| i);
    assert_eq!(c.state(), Cursor::Singleton(0));
    c.place(9);
    let before = c.reset();
    assert_eq!(before.state(), Cursor::Singleton(9));
    assert_eq!(c.state(), Cursor::Singleton(0));
}

#[test]
fn viewport_jump_brings_row_into_view() {
    let mut v = Viewport::new();
    v.fit_view(10, 80);
    v.jump_to(25);
    assert_eq!(v.top(), 16);
    assert_eq!(v.bottom(), 26);
    v.jump_to(3);
    assert_eq!(v.top(), 3);
    v.jump_to(5);
    assert_eq!(v.top(), 3);
}

#[test]
fn viewport_pans_and_clamps() {
    let mut v = Viewport::new();
    v.fit_view(10, 80);
    v.pan_vertical(Direction::Next, 5);
    assert_eq!(v.top(), 5);
    v.pan_vertical(Direction::Back, 9);
    assert_eq!(v.top(), 0);
    v.pan_horizontal(Direction::Next, usize::MAX);
    v.pan_horizontal(Direction::Next, 3);
    assert_eq!(v.left(), usize::MAX);
    v.top_to(50);
    v.clamp(20);
    assert_eq!(v.top(), 19);
    v.clamp(4);
    assert_eq!(v.height(), 4);
    assert_eq!(v.width(), 80);
}

#[test]
fn mux_keeps_active_in_range() {
    let mut m: MultiplexerApp<u32> = MultiplexerApp::new();
    assert!(m.is_empty());
    m.push(1);
    m.push(2);
    m.push(3);
    m.move_active_index(10);
    assert_eq!(m.active_index(), 2);
    m.move_active(Direction::Back);
    assert_eq!(m.active_index(), 1);
    m.close_active();
    assert_eq!(m.instances(), &vec![1, 3]);
    assert_eq!(m.active(), Some(&3));
    assert_eq!(m.mode(), MultiplexerMode::Tabs);
    m.set_mode(m.mode().swap());
    assert_eq!(m.mode(), MultiplexerMode::Panes);
    m.clear();
    assert_eq!(m.len(), 0);
    assert_eq!(m.active(), None);
}

#[test]
fn history_walks_back_and_forth() {
    let mut h = History::new();
    assert!(h.backward().is_none());
    h.push("a".to_string());
    h.push("b".to_string());
    h.set_curr("draft".to_string());
    assert!(!h.is_using_history());
    assert_eq!(h.backward(), Some(("b", true)));
    assert!(h.is_using_history());
    assert_eq!(h.backward(), Some(("a", true)));
    assert_eq!(h.backward(), Some(("a", true)));
    assert_eq!(h.forward(), Some(("b", true)));
    assert_eq!(h.forward(), Some(("draft", false)));
    assert_eq!(h.forward(), Some(("draft", false)));
}

#[test]
fn status_message_expires_once() {
    let mut s = StatusApp::new();
    assert_eq!(s.get_message_update(), None);
    s.submit_message_with_duration("hello".to_string(), None);
    assert_eq!(s.get_message_update(), Some("hello".to_string()));
    assert_eq!(s.message_update(true), Some("hello".to_string()));
    s.submit_message("timed".to_string());
    assert_eq!(s.message_update(false), Some("timed".to_string()));
    assert_eq!(s.message_update(true), Some("timed".to_string()));
    assert_eq!(s.message_update(true), None);
    s.submit_message(String::new());
    assert_eq!(s.get_message_update(), None);
}

#[test]
fn status_zero_duration_expires() {
    let mut s = StatusApp::new();
    s.submit_message_with_duration("gone".to_string(), Some(0));
    let start = std::time::Instant::now();
    while start.elapsed() < std::time::Duration::from_millis(5) {}
    assert_eq!(s.get_message_update(), Some("gone".to_string()));
    assert_eq!(s.get_message_update(), None);
}

#[test]
fn bookmarks_toggle_and_nearest() {
    let mut b = Bookmarks::new();
    b.add(10);
    b.add(3);
    b.add(7);
    b.add(7);
    assert_eq!(b.to_vec(), vec![3, 7, 10]);
    assert!(b.has_line(7));
    b.toggle(7);
    assert!(!b.has_line(7));
    b.toggle(7);
    assert_eq!(b.to_vec(), vec![3, 7, 10]);
    assert_eq!(b.nearest_forward(7), Some(10));
    assert_eq!(b.nearest_forward(4), Some(7));
    assert_eq!(b.nearest_forward(10), Some(10));
    assert_eq!(b.nearest_backward(7), Some(3));
    assert_eq!(b.nearest_backward(2), Some(3));
    assert_eq!(b.nearest_backward(100), Some(10));
    b.remove(3);
    assert_eq!(b.len(), 2);
    b.clear();
    assert_eq!(b.nearest_forward(1), None);
    assert_eq!(b.nearest_backward(1), None);
}

#[test]
fn filter_save_data_reloads() {
    let mut data: FilterSaveData<u8> = FilterSaveData::new();
    assert_eq!(data.filters(None), &[] as &[u8]);
    assert_eq!(data.filters(Some(vec![1, 2, 3])), &[1, 2, 3]);
    data.add_filter(Some(vec![1, 2, 3]), 9);
    assert_eq!(data.filters(Some(vec![9])), &[9]);
    data.remove_filter(Some(vec![4, 5, 6]), 1);
    match &data {
        FilterSaveData::Loaded(l) => assert_eq!(l.filters, vec![4, 6]),
        FilterSaveData::Unloaded => panic!("expected loaded data"),
    }
}

#[test]
fn snapshots_index_their_items() {
    let snap = CowVecSnapshot::from_vec(vec![4, 5, 6]);
    assert_eq!(snap.len(), 3);
    assert_eq!(snap.get(1), Some(5));
    assert_eq!(snap.get(3), None);
    assert_eq!(snap.as_slice(), &[4, 5, 6]);
    let split = SplitCowVecSnapshot::from_segments(vec![snap, CowVecSnapshot::from_vec(vec![7])]);
    assert_eq!(split.segment_count(), 2);
    assert_eq!(split.get_segment(1).map(|s| s.len()), Some(1));
    assert!(split.get_segment(2).is_none());
}

#[test]
fn segment_translates_offsets() {
    let seg = SegmentRaw::new(100..150, vec![0u8; 50]);
    assert_eq!(seg.start(), 100);
    assert_eq!(seg.translate_inner_data_index(120), 20);
    assert_eq!(seg.translate_inner_data_index(150), 50);
    assert_eq!(seg.translate_inner_data_range(110, 130), 10..30);
    assert_eq!(seg.data().len(), 50);
}

#[test]
fn inflight_composite_finishes() {
    let mut inc = IncompleteComposite::new();
    inc.add_line(1);
    inc.add_line(1);
    inc.add_line(4);
    let done = inc.finish();
    assert_eq!(done.len(), 2);
    assert_eq!(done.get(1), Some(4));
    let empty: Inflight<Composite> = Inflight::empty();
    assert_eq!(empty.len(), 0);
    assert!(empty.is_complete());

    let mut building: InflightImpl<Composite> = InflightImpl::new();
    building.write(|mut c| {
        c.add_line(2);
        c.add_line(5);
        c
    });
    assert_eq!(building.read(|c| c.len()), 2);
    building.mark_complete();
    let mut inflight = Inflight::Incomplete(building);
    assert!(inflight.is_complete());
    assert_eq!(inflight.get(1), Some(5));
    assert!(inflight.try_finalize());
    assert_eq!(inflight.unwrap().get(0), Some(2));
}

#[test]
fn fenwick_counts_prefixes() {
    let mut t = FenwickTree::from_counts(vec![2, 0, 3]);
    assert_eq!(t.len(), 3);
    assert_eq!(t.prefix_sum(2, 0), 2);
    assert_eq!(t.prefix_sum(3, 1), 6);
    assert_eq!(t.index_of(0), 0);
    assert_eq!(t.index_of(2), 2);
    t.add_at(1, 4);
    assert_eq!(t.index_of(2), 1);
    t.sub_at(1, 4);
    assert_eq!(t.index_of(4), 2);
}

#[test]
fn active_mut_changes_only_the_active_instance() {
    let mut m: MultiplexerApp<u32> = MultiplexerApp::new();
    assert!(m.active_mut().is_none());
    m.push(1);
    m.push(2);
    m.push(3);
    m.move_active_index(1);
    if let Some(x) = m.active_mut() {
        *x = 20;
    }
    assert_eq!(m.instances(), &vec![1, 20, 3]);
    assert_eq!(m.active_index(), 1);
}
