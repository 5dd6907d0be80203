use vstd::prelude::*;

use crate::actions::{
    mode_switch, mode_switch_spec, Action, CommandAction, CommandJump, ConfigAction, FilterAction, InputMode,
    ModeSwitch, NormalAction, PromptMode, ViewDelta, VisualAction,
};
use crate::colors::{Color, ColorSelector};
use crate::cursor::{back_spec, clamp_spec, forward_spec, Cursor};
use crate::direction::Direction;
use crate::filters::{
    delta_amount, focus, import_error, imported, move_pos, removal_ok, removed_under, toggled, under_cursor,
    mask_text, Compositor, FilterData, FilterExport, SearchError,
};
use crate::instance::{
    cursor_in_rows, none_active_has, refreshed, select_lines, select_toggled, step_of, Instance,
};
use crate::lineset::CompositeStrategy;
use crate::mux::{active_clamp, MultiplexerApp, MultiplexerMode};
use crate::prompt::{PromptApp, PromptDelta, PromptMovement};
use crate::status::StatusApp;
use crate::editor::{concat, byte_len_of, width_of, byte_len, cursor_fits, deleted_cursor, deleted_text, edit_start, forward_target, inserted_text, move_ok, moved, Motion};
use crate::prompt::{appended_unless_repeat, history_after_take};
use crate::commands::{parse_command, command_of, texts, Command, CommandView, FilterCommand, FilterView, IndexArg, IndexView, MuxCommand, MuxView};
use crate::search::{regex_compiles, regex_escaped, search_spec};
use crate::viewport::{jump_top, sat_add, sat_sub};

verus! {

/// What `move_select` does to an instance.
pub open spec fn did_move_select(o: Instance, n: Instance, dir: Direction, select: bool, delta: ViewDelta) -> bool {
    &&& (n.wf())
    &&& (n.buffer() == o.buffer())
    &&& (n.compositor_spec() == o.compositor_spec())
    &&& (n.view_spec().lines_shown() == o.view_spec().lines_shown())
    &&& (n.view_spec().rows() == o.view_spec().rows())
    &&& (({
                    let c = o.cursor_spec();
                    let v = o.view_spec().view()@;
                    let a = move_pos(c, select);
                    let d = step_of(o.compositor_spec(), v.2, delta, dir, a as usize);
                    let moved = match dir {
                        Direction::Back => back_spec(c, select, sat_sub(a, d as int) as usize),
                        Direction::Next => forward_spec(c, select, sat_add(a, d as int) as usize),
                    };
                    let clamped = clamp_spec(moved, sat_sub(o.visible_count() as int, 1) as usize);
                    &&& n.cursor_spec() == clamped
                    &&& n.view_spec().view()@ == (
                        jump_top(v.0 as int, v.2 as int, focus(clamped) as int) as usize,
                        v.1,
                        v.2,
                        v.3,
                    )
                }))
}

/// What `set_follow_output` does to an instance.
pub open spec fn did_set_follow_output(o: Instance, n: Instance, follow_output: bool) -> bool {
    &&& (n.wf())
    &&& (n.view_spec().follows() == follow_output)
    &&& (n.view_spec().view() == o.view_spec().view())
    &&& (n.view_spec().rows() == o.view_spec().rows())
    &&& (n.view_spec().lines_shown() == o.view_spec().lines_shown())
    &&& (n.buffer() == o.buffer())
    &&& (n.compositor_spec() == o.compositor_spec())
    &&& (n.cursor_spec() == o.cursor_spec())
}

/// What `toggle_select_bookmarks` does to an instance.
pub open spec fn did_toggle_select_bookmarks(o: Instance, n: Instance) -> bool {
    &&& (n.wf())
    &&& (n.buffer() == o.buffer())
    &&& (n.compositor_spec().spec_filters().user_list() == o.compositor_spec().spec_filters().user_list())
    &&& (n.compositor_spec().spec_strategy() == o.compositor_spec().spec_strategy())
    &&& (select_toggled(
                    o.compositor_spec().spec_filters().bookmark_lines(),
                    n.compositor_spec().spec_filters().bookmark_lines(),
                    select_lines(o.cursor_spec(), o.view_spec().lines_shown().lines()),
                ))
    &&& (n.cursor_spec() == clamp_spec(
                    o.cursor_spec(),
                    sat_sub(o.visible_count() as int, 1) as usize,
                ))
    &&& (n.view_spec().end() == o.visible_count())
    &&& (({
                    let lines = select_lines(o.cursor_spec(), o.view_spec().lines_shown().lines());
                    let refresh = match o.cursor_spec() {
                        Cursor::Singleton(_) => none_active_has(
                            n.compositor_spec().spec_filters().list(),
                            lines[0],
                        ),
                        Cursor::Selection(..) => lines.len() == 0 || none_active_has(
                            o.compositor_spec().spec_filters().list(),
                            lines.last(),
                        ),
                    };
                    &&& refresh ==> refreshed(o.view_spec(), n.compositor_spec(), n.view_spec())
                    &&& !refresh ==> {
                        &&& n.view_spec().lines_shown() == o.view_spec().lines_shown()
                        &&& n.view_spec().recolor_pending()
                        &&& n.view_spec().view() == o.view_spec().view()
                    }
                }))
}

/// What `toggle_bookmark_line_number` does to an instance.
pub open spec fn did_toggle_bookmark_line_number(o: Instance, n: Instance, line_number: usize) -> bool {
    &&& (n.wf())
    &&& (n.buffer() == o.buffer())
    &&& (toggled(
                    o.compositor_spec().spec_filters().bookmark_lines(),
                    n.compositor_spec().spec_filters().bookmark_lines(),
                    line_number,
                ))
    &&& (n.compositor_spec().spec_filters().user_list() == o.compositor_spec().spec_filters().user_list())
    &&& (n.compositor_spec().spec_strategy() == o.compositor_spec().spec_strategy())
    &&& (n.cursor_spec() == clamp_spec(
                    o.cursor_spec(),
                    sat_sub(o.visible_count() as int, 1) as usize,
                ))
    &&& (n.view_spec().end() == o.visible_count())
    &&& (none_active_has(n.compositor_spec().spec_filters().list(), line_number) ==> refreshed(
                    o.view_spec(),
                    n.compositor_spec(),
                    n.view_spec(),
                ))
    &&& (!none_active_has(n.compositor_spec().spec_filters().list(), line_number) ==> {
                    &&& n.view_spec().lines_shown() == o.view_spec().lines_shown()
                    &&& n.view_spec().recolor_pending()
                    &&& n.view_spec().view() == o.view_spec().view()
                })
}

/// What `toggle_select_filters` does to an instance.
pub open spec fn did_toggle_select_filters(o: Instance, n: Instance) -> bool {
    &&& (n.wf())
    &&& (n.buffer() == o.buffer())
    &&& (n.cursor_spec() == o.cursor_spec())
    &&& (n.compositor_spec().spec_filters().list().len() == o.compositor_spec().spec_filters().list().len())
    &&& (forall|k: int|
                    0 <= k < o.compositor_spec().spec_filters().list().len() ==> {
                        &&& (#[trigger] n.compositor_spec().spec_filters().list()[k]).spec_enabled() == (if under_cursor(o.compositor_spec().spec_cursor(), k) {
                            !o.compositor_spec().spec_filters().list()[k].spec_enabled()
                        } else {
                            o.compositor_spec().spec_filters().list()[k].spec_enabled()
                        })
                        &&& n.compositor_spec().spec_filters().list()[k].spec_data() == o.compositor_spec().spec_filters().list()[k].spec_data()
                    })
    &&& (refreshed(o.view_spec(), n.compositor_spec(), n.view_spec()))
}

/// What `remove_select_filter` does to an instance.
pub open spec fn did_remove_select_filter(o: Instance, n: Instance) -> bool {
    &&& (n.wf())
    &&& (n.buffer() == o.buffer())
    &&& (n.cursor_spec() == o.cursor_spec())
    &&& (n.compositor_spec().spec_filters().user_list() == removed_under(
                    o.compositor_spec().spec_filters().user_list(),
                    o.compositor_spec().spec_cursor(),
                ))
    &&& (n.compositor_spec().spec_filters().bookmark_lines() == o.compositor_spec().spec_filters().bookmark_lines())
    &&& (refreshed(o.view_spec(), n.compositor_spec(), n.view_spec()))
}

/// What `toggle_filter` does to an instance.
pub open spec fn did_toggle_filter(o: Instance, n: Instance, filter_index: usize) -> bool {
    &&& (n.wf())
    &&& (n.buffer() == o.buffer())
    &&& (n.cursor_spec() == o.cursor_spec())
    &&& (n.compositor_spec().spec_strategy() == o.compositor_spec().spec_strategy())
    &&& (n.compositor_spec().spec_filters().list().len() == o.compositor_spec().spec_filters().list().len())
    &&& (forall|k: int|
                    0 <= k < o.compositor_spec().spec_filters().list().len() ==> {
                        &&& (#[trigger] n.compositor_spec().spec_filters().list()[k]).spec_enabled() == (if k == filter_index {
                            !o.compositor_spec().spec_filters().list()[k].spec_enabled()
                        } else {
                            o.compositor_spec().spec_filters().list()[k].spec_enabled()
                        })
                        &&& n.compositor_spec().spec_filters().list()[k].spec_data() == o.compositor_spec().spec_filters().list()[k].spec_data()
                    })
    &&& (refreshed(o.view_spec(), n.compositor_spec(), n.view_spec()))
}

/// What `set_composite_strategy` does to an instance.
pub open spec fn did_set_composite_strategy(o: Instance, n: Instance, strategy: CompositeStrategy) -> bool {
    &&& (n.wf())
    &&& (n.buffer() == o.buffer())
    &&& (n.cursor_spec() == o.cursor_spec())
    &&& (n.compositor_spec().spec_strategy() == strategy)
    &&& (n.compositor_spec().spec_filters() == o.compositor_spec().spec_filters())
    &&& (refreshed(o.view_spec(), n.compositor_spec(), n.view_spec()))
}

/// What `move_selected_into_view` does to an instance.
pub open spec fn did_move_selected_into_view(o: Instance, n: Instance) -> bool {
    &&& (n.buffer() == o.buffer())
    &&& (n.compositor_spec() == o.compositor_spec())
    &&& (n.view_spec() == o.view_spec())
    &&& (({
                    let v = o.view_spec().view()@;
                    let current = focus(o.cursor_spec());
                    n.cursor_spec() == (if current < v.0 {
                        Cursor::Singleton(v.0)
                    } else if current >= v.0 + v.2 {
                        Cursor::Singleton(sat_sub(v.0 + v.2, 1) as usize)
                    } else {
                        o.cursor_spec()
                    })
                }))
}

/// What `invalidate_cache` does to an instance.
pub open spec fn did_invalidate_cache(o: Instance, n: Instance) -> bool {
    &&& (n.wf())
    &&& (n.buffer() == o.buffer())
    &&& (n.compositor_spec() == o.compositor_spec())
    &&& (n.cursor_spec() == o.cursor_spec())
    &&& (n.name_spec() == o.name_spec())
    &&& (n.view_spec().follows() == o.view_spec().follows())
    &&& (n.view_spec().end() == o.view_spec().end())
    &&& (refreshed(o.view_spec(), o.compositor_spec(), n.view_spec()))
}

/// What `add_search_filter` does to an instance.
pub open spec fn did_add_search_filter(o: Instance, n: Instance, pattern: Seq<char>, literal: bool, c0: ColorSelector, c1: ColorSelector, r: Result<(), SearchError>) -> bool {
    &&& (c1.wf())
    &&& (n.wf())
    &&& (n.buffer() == o.buffer())
    &&& (n.cursor_spec() == o.cursor_spec())
    &&& (({
                    let text = if literal {
                        regex_escaped(pattern)
                    } else {
                        pattern
                    };
                    let found = search_spec(text, o.buffer().contents(), o.buffer().offsets(), 0);
                    &&& !regex_compiles(text) ==> r == Err::<(), SearchError>(SearchError::Invalid)
                        && c1 == c0 && n == o
                    &&& regex_compiles(text) ==> c1 == c0.stepped()
                    &&& regex_compiles(text) && found is None ==> r == Err::<(), SearchError>(SearchError::OffLine)
                        && n == o
                    &&& regex_compiles(text) && found is Some ==> {
                        let fs0 = o.compositor_spec().spec_filters().list();
                        let fs1 = n.compositor_spec().spec_filters().list();
                        &&& r is Ok
                        &&& fs1.len() == fs0.len() + 1
                        &&& forall|k: int| 0 <= k < fs0.len() ==> #[trigger] fs1[k] == fs0[k]
                        &&& fs1.last().spec_enabled()
                        &&& fs1.last().spec_mask()@ == text
                        &&& fs1.last().spec_color() == c0.color_of()
                        &&& fs1.last().spec_data() matches FilterData::Search(set) && set.completed()
                            && Some(set.lines()) == found
                        &&& n.compositor_spec().spec_strategy() == o.compositor_spec().spec_strategy()
                        &&& refreshed(o.view_spec(), n.compositor_spec(), n.view_spec())
                    }
                }))
}

/// What `import_user_filters` does to an instance.
pub open spec fn did_import_user_filters(o: Instance, n: Instance, exports: Seq<FilterExport<Color>>, r: Result<(), SearchError>) -> bool {
    &&& (n.wf())
    &&& (n.buffer() == o.buffer())
    &&& (n.cursor_spec() == o.cursor_spec())
    &&& (n.compositor_spec().spec_strategy() == o.compositor_spec().spec_strategy())
    &&& (({
                    let fs0 = o.compositor_spec().spec_filters().list();
                    let fs1 = n.compositor_spec().spec_filters().list();
                    let m = fs1.len() - fs0.len();
                    &&& 0 <= m <= exports.len()
                    &&& forall|k: int| 0 <= k < fs0.len() ==> #[trigger] fs1[k] == fs0[k]
                    &&& forall|j: int|
                        0 <= j < m ==> import_error(#[trigger] exports[j], o.buffer()) is None
                            && imported(fs1[fs0.len() + j], exports[j], o.buffer())
                    &&& r is Ok <==> m == exports.len()
                    &&& r matches Err(e) ==> import_error(exports[m], o.buffer()) == Some(e)
                }))
    &&& (refreshed(o.view_spec(), n.compositor_spec(), n.view_spec()))
}

/// What `Compositor::move_select` does to the filter list.
pub open spec fn did_filter_move(c0: Compositor<String, Color>, c1: Compositor<String, Color>, dir: Direction, select: bool, delta: ViewDelta) -> bool {
    &&& (c1.spec_all() == c0.spec_all())
    &&& (c1.spec_strategy() == c0.spec_strategy())
    &&& (c1.wf())
    &&& (c1.spec_filters() == c0.spec_filters())
    &&& (({
                    let d = delta_amount(c0.spec_viewport()@.2, delta);
                    let c = c0.spec_cursor();
                    let moved = match dir {
                        Direction::Back => back_spec(c, select, sat_sub(move_pos(c, select), d as int) as usize),
                        Direction::Next => forward_spec(c, select, sat_add(move_pos(c, select), d as int) as usize),
                    };
                    let clamped = clamp_spec(moved, sat_sub(c0.spec_filters().list().len() as int, 1) as usize);
                    let v = c0.spec_viewport()@;
                    &&& c1.spec_cursor() == clamped
                    &&& c1.spec_viewport()@ == (
                        jump_top(v.0 as int, v.2 as int, focus(clamped) as int) as usize,
                        v.1,
                        v.2,
                        v.3,
                    )
                }))
}

/// A change to one open buffer that an action asks for.
#[derive(Clone, Copy, PartialEq, Eq, Debug)]
pub enum InstanceOp {
    /// Bring the selected line into view and stop following new output.
    EnterVisual,
    /// Scroll the view up or down.
    PanVertical(Direction, ViewDelta),
    /// Scroll the view left or right.
    PanHorizontal(Direction, ViewDelta),
    /// Keep the view at the end as output grows.
    Follow,
    /// Move or stretch the line selection, and stop following new output.
    MoveSelect(Direction, bool, ViewDelta),
    /// Bookmark or unbookmark the selected lines.
    ToggleSelectedLine,
    /// Bookmark or unbookmark one line.
    ToggleLine(usize),
    /// Move or stretch the selection of the filter list.
    FilterMove(Direction, bool, ViewDelta),
    /// Turn the selected filters on or off.
    ToggleSelectedFilters,
    /// Remove the selected filters the user added.
    RemoveSelectedFilters,
    /// Turn one filter on or off.
    ToggleFilter(usize),
    /// Remove the filters the user added and every bookmark.
    ClearFilters,
    /// Compose the filters by this strategy.
    Strategy(CompositeStrategy),
    /// Scroll to the shown line nearest at or before this line of the file.
    Jump(usize),
}

/// Whether `op` can be done on `o` without overflow or an index out of
/// range; where it cannot, it is not done.
pub open spec fn op_allowed(o: Instance, op: InstanceOp) -> bool {
    let v = o.view_spec().view()@;
    match op {
        InstanceOp::EnterVisual => v.0 + v.2 <= usize::MAX,
        InstanceOp::MoveSelect(dir, select, delta) => v.0 + v.2 <= usize::MAX && (delta is Match && dir
            == Direction::Next && !o.compositor_spec().spec_filters().list()[0].spec_enabled() ==> move_pos(
            o.cursor_spec(),
            select,
        ) < usize::MAX),
        InstanceOp::ToggleSelectedLine => cursor_in_rows(o.cursor_spec(), o.view_spec().lines_shown().lines().len()),
        InstanceOp::ToggleLine(ln) => ln <= o.buffer().line_total(),
        InstanceOp::FilterMove(_, _, delta) => !(delta is Match) && o.compositor_spec().spec_viewport()@.0
            + o.compositor_spec().spec_viewport()@.2 <= usize::MAX,
        InstanceOp::RemoveSelectedFilters => removal_ok(
            o.compositor_spec().spec_filters().user_list().len() as int,
            o.compositor_spec().spec_cursor(),
        ),
        InstanceOp::Jump(_) => v.0 + v.2 <= usize::MAX,
        _ => true,
    }
}

/// The view `v` scrolled by `d` rows or columns along one of its axes.
pub open spec fn panned(v: (usize, usize, usize, usize), vertical: bool, dir: Direction, d: usize) -> (
    usize,
    usize,
    usize,
    usize,
) {
    let moved = |x: usize|
        match dir {
            Direction::Back => sat_sub(x as int, d as int) as usize,
            Direction::Next => sat_add(x as int, d as int) as usize,
        };
    if vertical {
        (moved(v.0), v.1, v.2, v.3)
    } else {
        (v.0, moved(v.1), v.2, v.3)
    }
}

/// The instance `n` is `o` with only its view moved to `view`.
pub open spec fn view_moved(o: Instance, n: Instance, view: (usize, usize, usize, usize)) -> bool {
    &&& n.wf()
    &&& n.view_spec().view()@ == view
    &&& n.view_spec().lines_shown() == o.view_spec().lines_shown()
    &&& n.view_spec().rows() == o.view_spec().rows()
    &&& n.view_spec().follows() == o.view_spec().follows()
    &&& n.view_spec().end() == o.view_spec().end()
    &&& n.buffer() == o.buffer()
    &&& n.compositor_spec() == o.compositor_spec()
    &&& n.cursor_spec() == o.cursor_spec()
}

/// The line of the shown set a jump to `line_number` scrolls to: the one
/// before it while every line is shown, else the nearest shown line at or
/// before it.
pub open spec fn jump_target(o: Instance, line_number: usize) -> Option<usize> {
    let set = o.view_spec().lines_shown();
    if set is All {
        if line_number > 0 {
            Some((line_number - 1) as usize)
        } else {
            None
        }
    } else {
        crate::lineset::backward_pick(set.lines(), line_number)
    }
}

/// What doing `op` on the instance `o` leaves, `n`: nothing changes where
/// it is not allowed; else the operation's own change.
pub open spec fn op_done(o: Instance, n: Instance, op: InstanceOp) -> bool {
    if !op_allowed(o, op) {
        n == o
    } else {
        match op {
            InstanceOp::EnterVisual => exists|m: Instance|
                did_move_selected_into_view(o, m) && #[trigger] did_set_follow_output(m, n, false),
            InstanceOp::PanVertical(dir, delta) => view_moved(
                o,
                n,
                panned(o.view_spec().view()@, true, dir, delta_amount(o.view_spec().view()@.2, delta)),
            ),
            InstanceOp::PanHorizontal(dir, delta) => view_moved(
                o,
                n,
                panned(o.view_spec().view()@, false, dir, delta_amount(o.view_spec().view()@.3, delta)),
            ),
            InstanceOp::Follow => did_set_follow_output(o, n, true),
            InstanceOp::MoveSelect(dir, select, delta) => exists|m: Instance|
                did_move_select(o, m, dir, select, delta) && #[trigger] did_set_follow_output(m, n, false),
            InstanceOp::ToggleSelectedLine => did_toggle_select_bookmarks(o, n),
            InstanceOp::ToggleLine(ln) => did_toggle_bookmark_line_number(o, n, ln),
            InstanceOp::FilterMove(dir, select, delta) => {
                &&& n.wf()
                &&& did_filter_move(o.compositor_spec(), n.compositor_spec(), dir, select, delta)
                &&& n.view_spec() == o.view_spec()
                &&& n.buffer() == o.buffer()
                &&& n.cursor_spec() == o.cursor_spec()
            },
            InstanceOp::ToggleSelectedFilters => did_toggle_select_filters(o, n),
            InstanceOp::RemoveSelectedFilters => did_remove_select_filter(o, n),
            InstanceOp::ToggleFilter(k) => did_toggle_filter(o, n, k),
            InstanceOp::ClearFilters => {
                &&& n.wf()
                &&& n.buffer() == o.buffer()
                &&& n.cursor_spec() == o.cursor_spec()
                &&& n.compositor_spec().spec_strategy() == o.compositor_spec().spec_strategy()
                &&& n.compositor_spec().spec_filters().user_list() == Seq::<crate::filters::Filter<String, Color>>::empty()
                &&& n.compositor_spec().spec_filters().bookmark_lines() == Seq::<usize>::empty()
                &&& n.compositor_spec().spec_filters().list().len() == 2
                &&& refreshed(o.view_spec(), n.compositor_spec(), n.view_spec())
            },
            InstanceOp::Strategy(s) => did_set_composite_strategy(o, n, s),
            InstanceOp::Jump(ln) => match jump_target(o, ln) {
                Some(x) => if o.view_spec().lines_shown().lines().contains(x) {
                    exists|i: usize|
                        #![trigger o.view_spec().lines_shown().lines()[i as int]]
                        i < o.view_spec().lines_shown().lines().len() && o.view_spec().lines_shown().lines()[i as int]
                            == x && view_moved(
                            o,
                            n,
                            (
                                jump_top(o.view_spec().view()@.0 as int, o.view_spec().view()@.2 as int, i as int)
                                    as usize,
                                o.view_spec().view()@.1,
                                o.view_spec().view()@.2,
                                o.view_spec().view()@.3,
                            ),
                        )
                } else {
                    n == o
                },
                None => n == o,
            },
        }
    }
}

/// The rows or columns a move of `delta` covers in a view `size` long.
fn amount_of(size: usize, delta: ViewDelta) -> (r: usize)
    ensures
        r == delta_amount(size, delta),
{
    match delta {
        ViewDelta::Number(n) => n as usize,
        ViewDelta::Page => size,
        ViewDelta::HalfPage => size / 2 + size % 2,
        ViewDelta::Boundary => usize::MAX,
        ViewDelta::Match => usize::MAX,
    }
}

/// Whether `op` can be done on `inst`.
fn op_allowed_on(inst: &Instance, op: InstanceOp) -> (r: bool)
    requires
        inst.wf(),
    ensures
        r == op_allowed(*inst, op),
{
    let v = inst.viewport();
    let fits = v.top().checked_add(v.height()).is_some();
    match op {
        InstanceOp::EnterVisual => fits,
        InstanceOp::MoveSelect(dir, select, delta) => {
            if !fits {
                return false;
            }
            let is_match = match delta {
                ViewDelta::Match => true,
                _ => false,
            };
            let next = match dir {
                Direction::Next => true,
                Direction::Back => false,
            };
            if is_match && next {
                proof {
                    inst.compositor_spec().lemma_wf();
                    inst.compositor_spec().spec_filters().lemma_builtins();
                }
                let all_on = match inst.compositor().filters().get(0) {
                    Some(f) => f.is_enabled(),
                    None => true,
                };
                if !all_on {
                    let pos: usize = match inst.cursor() {
                        Cursor::Singleton(i) => i,
                        Cursor::Selection(a, b, dir) => if select {
                            match dir {
                                crate::cursor::SelectionOrigin::Right => b,
                                crate::cursor::SelectionOrigin::Left => a,
                            }
                        } else {
                            0
                        },
                    };
                    return pos < usize::MAX;
                }
            }
            true
        },
        InstanceOp::ToggleSelectedLine => {
            proof {
                inst.view_spec().lemma_wf(inst.buffer());
            }
            let shown = inst.composite();
            match inst.cursor() {
                Cursor::Singleton(i) => shown.get(i).is_some(),
                Cursor::Selection(a, b, _) => a > b || shown.get(b).is_some(),
            }
        },
        InstanceOp::ToggleLine(ln) => ln <= inst.file().line_count(),
        InstanceOp::FilterMove(_, _, delta) => {
            let is_match = match delta {
                ViewDelta::Match => true,
                _ => false,
            };
            let fv = inst.compositor().viewport();
            !is_match && fv.top().checked_add(fv.height()).is_some()
        },
        InstanceOp::RemoveSelectedFilters => {
            proof {
                inst.compositor_spec().lemma_wf();
                inst.compositor_spec().spec_filters().lemma_builtins();
            }
            let user = inst.compositor().filters().len() - 2;
            match inst.compositor().cursor().state {
                Cursor::Singleton(i) => i <= 1 || i - 2 < user,
                Cursor::Selection(a, b, _) => {
                    let a2 = if a > 2 {
                        a
                    } else {
                        2
                    };
                    a2 > b || b - 2 < user
                },
            }
        },
        InstanceOp::Jump(_) => fits,
        _ => true,
    }
}

/// Does `op` on `inst`, where it is allowed.
pub fn apply_op(inst: &mut Instance, op: InstanceOp)
    requires
        old(inst).wf(),
    ensures
        final(inst).wf(),
        op_done(*old(inst), *final(inst), op),
{
    if !op_allowed_on(inst, op) {
        return;
    }
    let ghost o = *inst;
    match op {
        InstanceOp::EnterVisual => {
            inst.move_selected_into_view();
            let ghost m = *inst;
            inst.set_follow_output(false);
            assert(did_set_follow_output(m, *inst, false));
        },
        InstanceOp::PanVertical(dir, delta) => {
            let h = inst.viewport().height();
            let d = amount_of(h, delta);
            inst.viewport_mut().pan_vertical(dir, d);
        },
        InstanceOp::PanHorizontal(dir, delta) => {
            let w = inst.viewport().width();
            let d = amount_of(w, delta);
            inst.viewport_mut().pan_horizontal(dir, d);
        },
        InstanceOp::Follow => inst.set_follow_output(true),
        InstanceOp::MoveSelect(dir, select, delta) => {
            inst.move_select(dir, select, delta);
            let ghost m = *inst;
            inst.set_follow_output(false);
            assert(did_set_follow_output(m, *inst, false));
        },
        InstanceOp::ToggleSelectedLine => inst.toggle_select_bookmarks(),
        InstanceOp::ToggleLine(ln) => inst.toggle_bookmark_line_number(ln),
        InstanceOp::FilterMove(dir, select, delta) => {
            inst.compositor_mut().move_select(dir, select, delta);
        },
        InstanceOp::ToggleSelectedFilters => inst.toggle_select_filters(),
        InstanceOp::RemoveSelectedFilters => inst.remove_select_filter(),
        InstanceOp::ToggleFilter(k) => inst.toggle_filter(k),
        InstanceOp::ClearFilters => {
            proof {
                inst.compositor_spec().lemma_wf();
            }
            inst.compositor_mut().filters_mut().clear();
            proof {
                inst.compositor_spec().spec_filters().lemma_builtins();
            }
            inst.invalidate_cache();
        },
        InstanceOp::Strategy(s) => inst.set_composite_strategy(s),
        InstanceOp::Jump(ln) => {
            match inst.nearest_index(ln) {
                Some(i) => {
                    inst.viewport_mut().jump_to(i);
                },
                None => {},
            }
        },
    }
}

/// What `PromptApp::take` does.
pub open spec fn prompt_take(o: PromptApp, n: PromptApp, r: Seq<char>) -> bool {
    &&& (n.wf())
    &&& (r == o.current())
    &&& (n.cursor_state() == Cursor::Singleton(0))
    &&& (o.index() < o.history().len() ==> {
                    &&& n.history() == o.history().remove(o.index() as int)
                    &&& n.draft() == o.draft()
                })
    &&& (o.index() >= o.history().len() ==> {
                    &&& n.history() == o.history()
                    &&& n.draft() == Seq::<char>::empty()
                })
    &&& (n.index() == n.history().len())
}

/// What `PromptApp::submit` does.
pub open spec fn prompt_submit(o: PromptApp, n: PromptApp, r: Seq<char>) -> bool {
    &&& (n.wf())
    &&& (r == o.current())
    &&& (n.cursor_state() == Cursor::Singleton(0))
    &&& (n.history() == appended_unless_repeat(
                    history_after_take(o.history(), o.index()),
                    r,
                ))
    &&& (n.index() == n.history().len())
    &&& (o.index() < o.history().len() ==> n.draft() == o.draft())
    &&& (o.index() >= o.history().len() ==> n.draft() == Seq::<char>::empty())
}

/// What `PromptApp::enter_str` does.
pub open spec fn prompt_enter_str(o: PromptApp, n: PromptApp, input: Seq<char>) -> bool {
    &&& (n.wf())
    &&& (n.history() == o.history())
    &&& (n.index() == o.history().len())
    &&& (n.draft() == inserted_text(o.current(), o.cursor_state(), input))
    &&& (n.cursor_state() == Cursor::Singleton(
                    forward_target(
                        n.draft(),
                        edit_start(o.cursor_state()),
                        Motion::Chars(byte_len(input) as usize),
                    ) as usize,
                ))
    &&& (cursor_fits(n.draft(), n.cursor_state()))
}

/// What `PromptApp::enter_char` does.
pub open spec fn prompt_enter_char(o: PromptApp, n: PromptApp, input: char) -> bool {
    &&& (n.wf())
    &&& (n.history() == o.history())
    &&& (n.index() == o.history().len())
    &&& (n.draft() == inserted_text(o.current(), o.cursor_state(), seq![input]))
    &&& (n.cursor_state() == Cursor::Singleton(
                    forward_target(
                        n.draft(),
                        edit_start(o.cursor_state()),
                        Motion::Chars(byte_len(seq![input]) as usize),
                    ) as usize,
                ))
    &&& (cursor_fits(n.draft(), n.cursor_state()))
}

/// What `PromptApp::delete` does.
pub open spec fn prompt_delete(o: PromptApp, n: PromptApp, r: bool) -> bool {
    &&& (n.wf())
    &&& (n.history() == o.history())
    &&& (n.index() == o.history().len())
    &&& (n.draft() == deleted_text(o.current(), o.cursor_state()))
    &&& (n.cursor_state() == deleted_cursor(o.current(), o.cursor_state()))
    &&& (cursor_fits(n.draft(), n.cursor_state()))
    &&& (r == !(o.cursor_state() == Cursor::Singleton(0) && o.current().len() == 0))
}

/// What `PromptApp::backward` does.
pub open spec fn prompt_backward(o: PromptApp, n: PromptApp) -> bool {
    &&& (n.wf())
    &&& (n.history() == o.history())
    &&& (n.draft() == o.draft())
    &&& (n.index() == (if o.index() > 0 {
                    o.index() - 1
                } else {
                    0
                }))
    &&& (n.cursor_state() == Cursor::Singleton(byte_len(n.current()) as usize))
}

/// What `PromptApp::forward` does.
pub open spec fn prompt_forward(o: PromptApp, n: PromptApp) -> bool {
    &&& (n.wf())
    &&& (n.history() == o.history())
    &&& (n.draft() == o.draft())
    &&& (n.index() == (if o.index() < o.history().len() {
                    o.index() + 1
                } else {
                    o.history().len() as int
                }))
    &&& (n.cursor_state() == Cursor::Singleton(byte_len(n.current()) as usize))
}

/// What `PromptApp::move_cursor` does.
pub open spec fn prompt_move_cursor(o: PromptApp, n: PromptApp, direction: Direction, movement: PromptMovement) -> bool {
    &&& (n.wf())
    &&& (n.history() == o.history())
    &&& (n.index() == o.index())
    &&& (n.draft() == o.draft())
    &&& (n.cursor_state() == moved(
                    o.current(),
                    o.cursor_state(),
                    direction == Direction::Back,
                    movement.spec_select(),
                    movement.motion(),
                ))
}

/// What the front end does after an action: nothing, or work that reads
/// or writes outside the library.
pub enum Effect {
    /// Nothing more.
    Stay,
    /// End the program.
    Quit,
    /// Expand and run a shell command line; pipe the view's lines to it when
    /// `pipe` is set.
    Shell { command: String, pipe: bool },
    /// Write the active view's lines to the file at this path.
    ExportFile(String),
    /// Start writing the active view's lines to the file at this path, made
    /// of these words.
    Export(Vec<String>),
    /// Copy the active view's lines to the clipboard.
    Copy,
    /// Show and copy the path the active buffer was read from.
    ReadLink,
    /// Turn mouse capture on or off.
    ToggleMouse,
    /// Redraw the screen.
    Refresh,
    /// Open the file at the path made of these words.
    Open(Vec<String>),
    /// The instance at this position was closed.
    Closed(usize),
    /// Save the active view's filters under the name made of these words.
    SaveFilters(Vec<String>),
    /// Act on the list of saved filters.
    Config(ConfigAction),
    /// A filter copy named this position, where there is no instance.
    InvalidTarget(usize),
}

/// The state of the viewer: the open buffers, the input mode, the prompt,
/// the status line, the colours for new filters and the switches.
pub struct Viewer {
    pub mux: MultiplexerApp<Instance>,
    pub mode: InputMode,
    pub prompt: PromptApp,
    pub status: StatusApp,
    pub colors: ColorSelector,
    pub linked_filters: bool,
    pub gutter: bool,
    pub persistent: bool,
}

/// The text a status message about a failed search of `pattern` shows.
pub open spec fn search_error_text(pattern: Seq<char>, e: SearchError) -> Seq<char> {
    match e {
        SearchError::Invalid => pattern + ": invalid pattern"@,
        SearchError::OffLine => pattern + ": a match lies past the last line"@,
    }
}

/// `n` is `o` with the status showing `text` for two seconds.
pub open spec fn said(o: Viewer, n: Viewer, text: Seq<char>) -> bool {
    &&& n.status.message() == text
    &&& n.status.limit() == (if text.len() > 0 {
        Some(2000u64)
    } else {
        None
    })
    &&& n == Viewer { status: n.status, ..o }
}

/// The saved form `exs` is what `export_user_filters` gives of the filters
/// the user added to `inst`.
pub open spec fn exported(inst: Instance, exs: Seq<FilterExport<Color>>) -> bool {
    let user = inst.compositor_spec().spec_filters().user_list();
    &&& exs.len() == user.len()
    &&& forall|k: int|
        0 <= k < exs.len() ==> {
            &&& mask_text((#[trigger] exs[k]).mask) == user[k].spec_mask()@
            &&& exs[k].enabled == user[k].spec_enabled()
            &&& exs[k].color == user[k].spec_color()
        }
}

/// Every filter the user added to `inst` is a search, so it can be saved.
pub open spec fn savable(inst: Instance) -> bool {
    forall|k: int|
        0 <= k < inst.compositor_spec().spec_filters().user_list().len()
            ==> (#[trigger] inst.compositor_spec().spec_filters().user_list()[k]).spec_data() is Search
}

/// `n` is `o` loaded with the saved filters `exs`, when there is room for
/// them; `o` unchanged otherwise.
pub open spec fn import_done(o: Instance, n: Instance, exs: Seq<FilterExport<Color>>) -> bool {
    if o.compositor_spec().spec_filters().list().len() + exs.len() < usize::MAX {
        exists|r: Result<(), SearchError>| #[trigger] did_import_user_filters(o, n, exs, r)
    } else {
        n == o
    }
}

impl Viewer {
    /// The open buffers, in order.
    pub open spec fn insts(&self) -> Seq<Instance> {
        self.mux.instances_view()
    }

    /// The position of the active buffer.
    pub open spec fn active(&self) -> int {
        self.mux.active_view() as int
    }

    /// There is an active buffer.
    pub open spec fn has_active(&self) -> bool {
        self.active() < self.insts().len()
    }

    /// Every buffer, the prompt and the colours are well formed.
    pub open spec fn wf(&self) -> bool {
        &&& forall|i: int| 0 <= i < self.insts().len() ==> (#[trigger] self.insts()[i]).wf()
        &&& self.prompt.wf()
        &&& self.colors.wf()
    }

    /// An action on filters reaches the buffer at `i`: every buffer while
    /// the filters are linked, else the active one.
    pub open spec fn reaches(&self, i: int) -> bool {
        self.linked_filters || i == self.active()
    }

    /// The pattern of the filter selected in the active buffer's filter
    /// list, when it is a search.
    pub open spec fn selected_pattern(&self) -> Option<Seq<char>> {
        if self.has_active() {
            let c = self.insts()[self.active()].compositor_spec();
            let i = focus(c.spec_cursor()) as int;
            let fs = c.spec_filters().list();
            if i < fs.len() && fs[i].spec_data() is Search {
                Some(fs[i].spec_mask()@)
            } else {
                None
            }
        } else {
            None
        }
    }
}

/// `n` is `o` with `op` done on the buffers `at` picks and nothing else
/// changed.
pub open spec fn ops_done(o: Viewer, n: Viewer, op: InstanceOp, at: spec_fn(int) -> bool) -> bool {
    &&& n == Viewer { mux: n.mux, ..o }
    &&& n.active() == o.active()
    &&& n.mux.mode_view() == o.mux.mode_view()
    &&& n.insts().len() == o.insts().len()
    &&& forall|i: int|
        0 <= i < o.insts().len() ==> if at(i) {
            op_done(o.insts()[i], #[trigger] n.insts()[i], op)
        } else {
            n.insts()[i] == o.insts()[i]
        }
}

/// `n` is `o` with only the mux changed, its buffers kept.
pub open spec fn mux_moved(o: Viewer, n: Viewer) -> bool {
    &&& n == Viewer { mux: n.mux, ..o }
    &&& n.insts() == o.insts()
}

/// The first error among `rs`, if any.
pub open spec fn first_error(rs: Seq<Result<(), SearchError>>) -> Option<SearchError>
    decreases rs.len(),
{
    if rs.len() == 0 {
        None
    } else {
        match first_error(rs.drop_last()) {
            Some(e) => Some(e),
            None => match rs.last() {
                Err(e) => Some(e),
                Ok(_) => None,
            },
        }
    }
}

/// How the search left the buffer at `i`, given the colours `cs` and the
/// results `rs` along the way.
pub open spec fn search_step(
    o: Viewer,
    n: Seq<Instance>,
    pattern: Seq<char>,
    literal: bool,
    cs: Seq<ColorSelector>,
    rs: Seq<Result<(), SearchError>>,
    i: int,
) -> bool {
    if o.reaches(i) && o.insts()[i].compositor_spec().spec_filters().list().len() < usize::MAX {
        did_add_search_filter(o.insts()[i], n[i], pattern, literal, cs[i], cs[i + 1], rs[i])
    } else {
        n[i] == o.insts()[i] && cs[i + 1] == cs[i] && rs[i] is Ok
    }
}

/// A search for `pattern` in the buffers the filters reach, in order, each
/// taking the next colour when the pattern compiles; the first error is
/// shown in the status.
pub open spec fn searched(o: Viewer, n: Viewer, pattern: Seq<char>, literal: bool) -> bool {
    exists|cs: Seq<ColorSelector>, rs: Seq<Result<(), SearchError>>|
        #![trigger cs.len(), rs.len()]
        {
            let len = o.insts().len();
            &&& cs.len() == len + 1
            &&& rs.len() == len
            &&& cs[0] == o.colors
            &&& n.colors == cs[len as int]
            &&& n.insts().len() == len
            &&& forall|i: int| 0 <= i < len ==> #[trigger] search_step(o, n.insts(), pattern, literal, cs, rs, i)
            &&& n.active() == o.active()
            &&& n.mux.mode_view() == o.mux.mode_view()
            &&& match first_error(rs) {
                Some(e) => said(Viewer { mux: n.mux, colors: n.colors, ..o }, n, search_error_text(pattern, e)),
                None => n == (Viewer { mux: n.mux, colors: n.colors, ..o }),
            }
        }
}

/// A state with the buffers, prompt and colours of a well-formed state is
/// well formed.
proof fn lemma_wf_same(o: Viewer, n: Viewer)
    ensures
        o.wf() && n.insts() == o.insts() && n.prompt == o.prompt && n.colors == o.colors ==> n.wf(),
        o.wf() && n.insts() == o.insts() && n.prompt.wf() && n.colors.wf() ==> n.wf(),
{
    if o.wf() && n.insts() == o.insts() {
        assert forall|i: int| 0 <= i < n.insts().len() implies (#[trigger] n.insts()[i]).wf() by {
            assert(n.insts()[i] == o.insts()[i]);
        }
    }
}

impl Viewer {
    /// No buffers, in normal mode, with an empty prompt and status, the
    /// colours `colors` for new filters, and every switch off.
    pub fn new(colors: ColorSelector) -> (r: Self)
        requires
            colors.wf(),
        ensures
            r.wf(),
            r.insts().len() == 0,
            r.active() == 0,
            r.mux.mode_view() == MultiplexerMode::Tabs,
            r.mode == InputMode::Normal,
            r.prompt.history().len() == 0,
            r.prompt.draft().len() == 0,
            r.status.message().len() == 0,
            r.colors == colors,
            !r.linked_filters && !r.gutter && !r.persistent,
    {
        Viewer {
            mux: MultiplexerApp::new(),
            mode: InputMode::Normal,
            prompt: PromptApp::new(),
            status: StatusApp::new(),
            colors,
            linked_filters: false,
            gutter: false,
            persistent: false,
        }
    }

    /// Adds an open buffer after the others.
    pub fn push_instance(&mut self, inst: Instance)
        requires
            old(self).wf(),
            inst.wf(),
        ensures
            final(self).wf(),
            final(self).insts() == old(self).insts().push(inst),
            final(self).active() == old(self).active(),
            *final(self) == (Viewer { mux: final(self).mux, ..*old(self) }),
            final(self).mux.mode_view() == old(self).mux.mode_view(),
    {
        self.mux.push(inst);
        proof {
            assert forall|i: int| 0 <= i < self.insts().len() implies (#[trigger] self.insts()[i]).wf() by {
                if i < old(self).insts().len() {
                    assert(self.insts()[i] == old(self).insts()[i]);
                }
            }
        }
    }

    /// Does `op` on the buffer at `index`, if there is one.
    fn do_at(&mut self, index: usize, op: InstanceOp)
        requires
            old(self).wf(),
        ensures
            final(self).wf(),
            ops_done(*old(self), *final(self), op, |i: int| i == index),
    {
        let ghost o = *self;
        match self.mux.instance_mut(index) {
            Some(inst) => {
                apply_op(inst, op);
            },
            None => {},
        }
        proof {
            assert forall|i: int| 0 <= i < self.insts().len() implies (#[trigger] self.insts()[i]).wf() by {
                if i != index {
                    assert(self.insts()[i] == o.insts()[i]);
                }
            }
            assert forall|i: int| 0 <= i < o.insts().len() implies (if i == index {
                op_done(o.insts()[i], #[trigger] self.insts()[i], op)
            } else {
                self.insts()[i] == o.insts()[i]
            }) by {}
        }
    }

    /// Does `op` on every buffer the filters reach.
    fn do_reached(&mut self, op: InstanceOp)
        requires
            old(self).wf(),
        ensures
            final(self).wf(),
            ops_done(*old(self), *final(self), op, |i: int| old(self).reaches(i)),
    {
        let ghost o = *self;
        if !self.linked_filters {
            let a = self.mux.active_index();
            self.do_at(a, op);
            return;
        }
        let n = self.mux.len();
        let mut k: usize = 0;
        while k < n
            invariant
                k <= n == o.insts().len(),
                self.wf(),
                *self == (Viewer { mux: self.mux, ..o }),
                self.active() == o.active(),
                self.mux.mode_view() == o.mux.mode_view(),
                self.insts().len() == n,
                forall|i: int| 0 <= i < k ==> op_done(o.insts()[i], #[trigger] self.insts()[i], op),
                forall|i: int| k <= i < n ==> #[trigger] self.insts()[i] == o.insts()[i],
            decreases n - k,
        {
            let ghost before = *self;
            self.do_at(k, op);
            proof {
                assert forall|i: int| 0 <= i < k + 1 implies op_done(o.insts()[i], #[trigger] self.insts()[i], op) by {
                    if i < k {
                        assert(self.insts()[i] == before.insts()[i]);
                    } else {
                        assert(before.insts()[i] == o.insts()[i]);
                    }
                }
                assert forall|i: int| k + 1 <= i < n implies #[trigger] self.insts()[i] == o.insts()[i] by {
                    assert(self.insts()[i] == before.insts()[i]);
                }
            }
            k = k + 1;
        }
    }

    /// Shows `text` in the status for two seconds.
    fn say(&mut self, text: &str)
        ensures
            said(*old(self), *final(self), text@),
            old(self).wf() ==> final(self).wf(),
    {
        self.status.submit_message(text.to_owned());
        proof {
            lemma_wf_same(*old(self), *self);
        }
    }
}

impl Viewer {
    /// Adds a filter of the lines where `pattern` matches to every buffer
    /// the filters reach, in order, each in the next colour; the first
    /// error is shown in the status.
    fn search(&mut self, pattern: &str, literal: bool)
        requires
            old(self).wf(),
        ensures
            final(self).wf(),
            searched(*old(self), *final(self), pattern@, literal),
    {
        let ghost o = *self;
        let n = self.mux.len();
        let linked = self.linked_filters;
        let active = self.mux.active_index();
        let ghost mut cs: Seq<ColorSelector> = seq![self.colors];
        let ghost mut rs: Seq<Result<(), SearchError>> = Seq::empty();
        let mut err: Option<SearchError> = None;
        let mut k: usize = 0;
        while k < n
            invariant
                k <= n == o.insts().len(),
                linked == o.linked_filters,
                active == o.active(),
                self.wf(),
                (Viewer { mux: o.mux, colors: o.colors, ..*self }) == o,
                self.active() == o.active(),
                self.mux.mode_view() == o.mux.mode_view(),
                self.insts().len() == n,
                cs.len() == k + 1,
                rs.len() == k,
                cs[0] == o.colors,
                self.colors == cs[k as int],
                err == first_error(rs),
                forall|i: int| 0 <= i < k ==> #[trigger] search_step(o, self.insts(), pattern@, literal, cs, rs, i),
                forall|i: int| k <= i < n ==> #[trigger] self.insts()[i] == o.insts()[i],
            decreases n - k,
        {
            let ghost before = *self;
            let ghost c0 = self.colors;
            let mut r: Result<(), SearchError> = Ok(());
            let ghost mut ia: Instance = o.insts()[k as int];
            let ghost mut did = false;
            if linked || k == active {
                assert(self.insts()[k as int] == o.insts()[k as int]);
                assert(self.insts()[k as int].wf());
                match self.mux.instance_mut(k) {
                    Some(inst) => {
                        proof {
                            inst.compositor_spec().lemma_wf();
                        }
                        if inst.compositor().filters().len() < usize::MAX {
                            let ghost ib = *inst;
                            r = inst.add_search_filter(pattern, literal, &mut self.colors);
                            proof {
                                ia = *inst;
                                did = true;
                            }
                            assert(did_add_search_filter(ib, ia, pattern@, literal, c0, self.colors, r));
                        }
                    },
                    None => {},
                }
            }
            assert(self.insts()[k as int] == ia);
            assert(did ==> did_add_search_filter(o.insts()[k as int], self.insts()[k as int], pattern@, literal, c0, self.colors, r));
            assert(!did ==> self.colors == c0 && r is Ok);
            assert(did == (o.reaches(k as int) && o.insts()[k as int].compositor_spec().spec_filters().list().len() < usize::MAX));
            let ghost rs0 = rs;
            let ghost cs0 = cs;
            proof {
                cs = cs.push(self.colors);
                rs = rs.push(r);
                assert(rs.drop_last() =~= rs0);
            }
            if err.is_none() {
                if let Err(e) = r {
                    err = Some(e);
                }
            }
            proof {
                assert forall|i: int| 0 <= i < self.insts().len() implies (#[trigger] self.insts()[i]).wf() by {
                    if i != k {
                        assert(self.insts()[i] == before.insts()[i]);
                    }
                }
                assert forall|i: int| 0 <= i < k + 1 implies #[trigger] search_step(o, self.insts(), pattern@, literal, cs, rs, i) by {
                    if i < k {
                        assert(search_step(o, before.insts(), pattern@, literal, cs0, rs0, i));
                        assert(self.insts()[i] == before.insts()[i]);
                        assert(cs[i] == cs0[i] && cs[i + 1] == cs0[i + 1] && rs[i] == rs0[i]);
                    } else {
                        assert(cs[i] == c0 && cs[i + 1] == self.colors && rs[i] == r);
                    }
                }
                assert forall|i: int| k + 1 <= i < n implies #[trigger] self.insts()[i] == o.insts()[i] by {
                    assert(self.insts()[i] == before.insts()[i]);
                }
            }
            k = k + 1;
        }
        match err {
            Some(e) => {
                let suffix = match e {
                    SearchError::Invalid => ": invalid pattern",
                    SearchError::OffLine => ": a match lies past the last line",
                };
                let text = concat(pattern, suffix);
                self.say(text.as_str());
            },
            None => {},
        }
        proof {
            assert(cs.len() == rs.len() + 1);
        }
    }
}

/// Whether every filter the user added to `inst` is a search.
fn savable_now(inst: &Instance) -> (r: bool)
    requires
        inst.wf(),
    ensures
        r == savable(*inst),
{
    proof {
        inst.compositor_spec().lemma_wf();
        inst.compositor_spec().spec_filters().lemma_builtins();
    }
    let filters = inst.compositor().filters();
    let n = filters.len();
    let ghost user = filters.user_list();
    let mut k: usize = 2;
    while k < n
        invariant
            2 <= k <= n == filters.list().len(),
            filters.wf(),
            user == filters.user_list(),
            user == inst.compositor_spec().spec_filters().user_list(),
            filters.list() == seq![filters.list()[0], filters.list()[1]] + user,
            forall|j: int| 0 <= j < k - 2 ==> (#[trigger] user[j]).spec_data() is Search,
        decreases n - k,
    {
        let f = filters.get(k).unwrap();
        proof {
            assert(filters.list()[k as int] == user[k - 2]);
        }
        if !f.is_search() {
            return false;
        }
        k = k + 1;
    }
    true
}

impl Viewer {
    /// Loads the filters the user added to the active buffer into the buffer
    /// at `target`, when they can all be saved and there is room for them.
    fn import_from_active(&mut self, target: usize)
        requires
            old(self).wf(),
            old(self).has_active(),
            target < old(self).insts().len(),
            target != old(self).active(),
        ensures
            final(self).wf(),
            (Viewer { mux: old(self).mux, ..*final(self) }) == *old(self),
            final(self).active() == old(self).active(),
            final(self).mux.mode_view() == old(self).mux.mode_view(),
            savable(old(self).insts()[old(self).active()]) ==> exists|exs: Seq<FilterExport<Color>>, t: Instance|
                #![trigger exported(old(self).insts()[old(self).active()], exs), old(self).insts().update(target as int, t)]
                exported(old(self).insts()[old(self).active()], exs) && import_done(
                    old(self).insts()[target as int],
                    t,
                    exs,
                ) && final(self).insts() == old(self).insts().update(target as int, t),
            !savable(old(self).insts()[old(self).active()]) ==> final(self).insts() == old(self).insts(),
    {
        let ghost o = *self;
        let a = self.mux.active_index();
        let source = &self.mux.instances()[a];
        if !savable_now(source) {
            return;
        }
        proof {
            source.compositor_spec().lemma_wf();
        }
        let exports = source.compositor().export_user_filters();
        let ghost exs = exports@;
        assert(exported(o.insts()[o.active()], exs));
        let ghost mut rr: Result<(), SearchError> = Ok(());
        match self.mux.instance_mut(target) {
            Some(inst) => {
                proof {
                    inst.compositor_spec().lemma_wf();
                    inst.compositor_spec().spec_filters().lemma_builtins();
                }
                let present = inst.compositor().filters().len();
                if present < usize::MAX && exports.len() < usize::MAX - present {
                    let ghost ib = *inst;
                    let r = inst.import_user_filters(exports);
                    proof {
                        rr = r;
                    }
                    assert(did_import_user_filters(ib, *inst, exs, r));
                }
            },
            None => {},
        }
        proof {
            let t = self.insts()[target as int];
            assert(self.insts() == o.insts().update(target as int, t));
            if o.insts()[target as int].compositor_spec().spec_filters().list().len() + exs.len() < usize::MAX {
                o.insts()[target as int].compositor_spec().lemma_wf();
                o.insts()[target as int].compositor_spec().spec_filters().lemma_builtins();
                assert(did_import_user_filters(o.insts()[target as int], t, exs, rr));
            }
            assert(import_done(o.insts()[target as int], t, exs));
            assert forall|i: int| 0 <= i < self.insts().len() implies (#[trigger] self.insts()[i]).wf() by {
                if i != target {
                    assert(self.insts()[i] == o.insts()[i]);
                }
            }
        }
    }
}

/// How copying the filters of the buffer at `a` left the buffer at `i`.
pub open spec fn repl_step(o: Viewer, n: Seq<Instance>, a: int, i: int) -> bool {
    if savable(o.insts()[a]) {
        exists|exs: Seq<FilterExport<Color>>| exported(o.insts()[a], exs) && import_done(o.insts()[i], n[i], exs)
    } else {
        n[i] == o.insts()[i]
    }
}

/// `n` is `o` with the filters of the active buffer loaded into every
/// other buffer, where they can all be saved.
pub open spec fn replicated(o: Viewer, n: Viewer) -> bool {
    let a = o.active();
    &&& n == (Viewer { mux: n.mux, ..o })
    &&& n.active() == o.active()
    &&& n.mux.mode_view() == o.mux.mode_view()
    &&& n.insts().len() == o.insts().len()
    &&& n.insts()[a] == o.insts()[a]
    &&& forall|i: int| 0 <= i < o.insts().len() && i != a ==> #[trigger] repl_step(o, n.insts(), a, i)
}

/// `n` is `o` with the filters of the active buffer loaded into the buffer
/// at `target`, where they can all be saved.
pub open spec fn copied(o: Viewer, n: Viewer, target: int) -> bool {
    &&& n == (Viewer { mux: n.mux, ..o })
    &&& n.active() == o.active()
    &&& n.mux.mode_view() == o.mux.mode_view()
    &&& savable(o.insts()[o.active()]) ==> exists|exs: Seq<FilterExport<Color>>, t: Instance|
        #![trigger exported(o.insts()[o.active()], exs), o.insts().update(target, t)]
        exported(o.insts()[o.active()], exs) && import_done(o.insts()[target], t, exs) && n.insts()
            == o.insts().update(target, t)
    &&& !savable(o.insts()[o.active()]) ==> n.insts() == o.insts()
}

/// What a `filter` subcommand `f` does to `o`, leaving `n`, and what it
/// asks of the front end.
pub open spec fn filter_done(o: Viewer, n: Viewer, f: FilterView, e: Effect) -> bool {
    match f {
        FilterView::Link => e is Stay && {
            let m = Viewer { linked_filters: !o.linked_filters, ..o };
            if m.linked_filters && o.has_active() {
                replicated(m, n)
            } else {
                n == m
            }
        },
        FilterView::Persist => e is Stay && said(
            Viewer { persistent: !o.persistent, ..o },
            n,
            if !o.persistent {
                "filter persist: persistence = true"@
            } else {
                "filter persist: persistence = false"@
            },
        ),
        FilterView::CopyTo(t) => if !o.has_active() {
            e is Stay && n == o
        } else {
            match t {
                IndexView::Missing => e is Stay && said(o, n, "filter export: requires instance index"@),
                IndexView::Invalid(w) => e is Stay && said(o, n, "filter export "@ + w + ": invalid index"@),
                IndexView::Index(idx) => if idx == o.active() {
                    e is Stay && said(o, n, "filter export: cannot export to active instance"@)
                } else if idx >= o.insts().len() {
                    e == Effect::InvalidTarget(idx) && n == o
                } else {
                    e is Stay && copied(o, n, idx as int)
                },
            }
        },
        FilterView::Save(ws) => n == o && if o.has_active() {
            e matches Effect::SaveFilters(w) && texts(w@) == ws
        } else {
            e is Stay
        },
        FilterView::Load => e is Stay && n == (Viewer { mode: InputMode::Config, ..o }),
        FilterView::Clear => e is Stay && ops_done(o, n, InstanceOp::ClearFilters, |i: int| o.reaches(i)),
        FilterView::Union => e is Stay && ops_done(
            o,
            n,
            InstanceOp::Strategy(CompositeStrategy::Union),
            |i: int| o.reaches(i),
        ),
        FilterView::Intersect => e is Stay && ops_done(
            o,
            n,
            InstanceOp::Strategy(CompositeStrategy::Intersection),
            |i: int| o.reaches(i),
        ),
        FilterView::Invalid(c) => e is Stay && said(o, n, "filter "@ + c + ": invalid subcommand"@),
        FilterView::Missing => e is Stay && said(
            o,
            n,
            "filter: requires subcommand, one of `r[egex]`, `l[it]`, `clear`, `union`, `intersect`"@,
        ),
    }
}

/// `n` is `o` with the mux shown in `mode`.
pub open spec fn mux_set(o: Viewer, n: Viewer, mode: MultiplexerMode) -> bool {
    &&& n == (Viewer { mux: n.mux, ..o })
    &&& n.insts() == o.insts()
    &&& n.active() == o.active()
    &&& n.mux.mode_view() == mode
}

/// What the command `c` does to `o`, leaving `n`, and what it asks of the
/// front end.
pub open spec fn command_done(o: Viewer, n: Viewer, c: CommandView, e: Effect) -> bool {
    match c {
        CommandView::Quit => e is Quit && n == o,
        CommandView::MouseCapture => e is ToggleMouse && n == o,
        CommandView::ReadLink => if o.has_active() {
            e is ReadLink && n == o
        } else {
            e is Stay && said(o, n, "No active instances"@)
        },
        CommandView::Refresh => e is Refresh && n == o,
        CommandView::Open(ws) => n == o && (e matches Effect::Open(w) && texts(w@) == ws),
        CommandView::Copy => n == o && if o.has_active() {
            e is Copy
        } else {
            e is Stay
        },
        CommandView::Close => if o.has_active() {
            &&& e == Effect::Closed(o.active() as usize)
            &&& n == (Viewer { mux: n.mux, ..o })
            &&& n.insts() == o.insts().remove(o.active())
            &&& n.active() == active_clamp(o.active(), o.insts().len() - 1)
            &&& n.mux.mode_view() == o.mux.mode_view()
        } else {
            e is Stay && said(o, n, "No active instances"@)
        },
        CommandView::Gutter => e is Stay && n == (Viewer { gutter: !o.gutter, ..o }),
        CommandView::Mux(m) => e is Stay && match m {
            MuxView::Tabs => mux_set(o, n, MultiplexerMode::Tabs),
            MuxView::Panes => mux_set(o, n, MultiplexerMode::Panes),
            MuxView::Swap => mux_set(
                o,
                n,
                match o.mux.mode_view() {
                    MultiplexerMode::Panes => MultiplexerMode::Tabs,
                    MultiplexerMode::Tabs => MultiplexerMode::Panes,
                },
            ),
            MuxView::Invalid(style) => said(o, n, "mux "@ + style + ": invalid style, one of `tabs`, `split`"@),
        },
        CommandView::Filter(f) => filter_done(o, n, f, e),
        CommandView::Export(ws) => n == o && (e matches Effect::Export(w) && texts(w@) == ws),
        CommandView::Jump(ln) => e is Stay && if o.has_active() {
            ops_done(o, n, InstanceOp::Jump(ln), |i: int| i == o.active())
        } else {
            n == o
        },
        CommandView::Invalid(w) => e is Stay && said(o, n, w + ": Invalid command"@),
        CommandView::Empty => e is Stay && n == o,
    }
}

impl Viewer {
    /// Loads the filters of the active buffer into every other buffer.
    fn replicate(&mut self)
        requires
            old(self).wf(),
            old(self).has_active(),
        ensures
            final(self).wf(),
            replicated(*old(self), *final(self)),
    {
        let ghost o = *self;
        let n = self.mux.len();
        let a = self.mux.active_index();
        let mut k: usize = 0;
        while k < n
            invariant
                k <= n == o.insts().len(),
                a == o.active(),
                o.has_active(),
                self.wf(),
                *self == (Viewer { mux: self.mux, ..o }),
                self.active() == o.active(),
                self.mux.mode_view() == o.mux.mode_view(),
                self.insts().len() == n,
                self.insts()[a as int] == o.insts()[a as int],
                forall|i: int| 0 <= i < k && i != a ==> #[trigger] repl_step(o, self.insts(), a as int, i),
                forall|i: int| k <= i < n ==> #[trigger] self.insts()[i] == o.insts()[i],
            decreases n - k,
        {
            if k != a {
                let ghost before = *self;
                self.import_from_active(k);
                proof {
                    assert forall|i: int| 0 <= i < k + 1 && i != a implies #[trigger] repl_step(o, self.insts(), a as int, i) by {
                        if i < k {
                            assert(repl_step(o, before.insts(), a as int, i));
                            assert(self.insts()[i] == before.insts()[i]);
                        } else if savable(o.insts()[a as int]) {
                            let (exs, t) = choose|exs: Seq<FilterExport<Color>>, t: Instance|
                                #![trigger exported(before.insts()[before.active()], exs), before.insts().update(k as int, t)]
                                exported(before.insts()[before.active()], exs) && import_done(
                                    before.insts()[k as int],
                                    t,
                                    exs,
                                ) && self.insts() == before.insts().update(k as int, t);
                            assert(self.insts()[i] == t);
                            assert(exported(o.insts()[a as int], exs) && import_done(o.insts()[i], self.insts()[i], exs));
                        } else {
                            assert(self.insts() == before.insts());
                        }
                    }
                    assert forall|i: int| k + 1 <= i < n implies #[trigger] self.insts()[i] == o.insts()[i] by {
                        assert(self.insts()[i] == before.insts()[i]);
                    }
                }
            }
            proof {
                assert forall|i: int| 0 <= i < k + 1 && i != a implies #[trigger] repl_step(o, self.insts(), a as int, i) by {
                    if i == k {
                        assert(k != a);
                    }
                }
            }
            k = k + 1;
        }
    }

    /// Does what the command `cmd` asks and says what is left for the front
    /// end.
    pub fn apply_command(&mut self, cmd: Command) -> (e: Effect)
        requires
            old(self).wf(),
        ensures
            final(self).wf(),
            command_done(*old(self), *final(self), cmd.view(), e),
    {
        let has_active = self.mux.active_index() < self.mux.len();
        let ghost o = *self;
        let e =         match cmd {
            Command::Quit => Effect::Quit,
            Command::MouseCapture => Effect::ToggleMouse,
            Command::ReadLink => {
                if has_active {
                    Effect::ReadLink
                } else {
                    self.say("No active instances");
                    Effect::Stay
                }
            },
            Command::Refresh => Effect::Refresh,
            Command::Open(words) => Effect::Open(words),
            Command::Copy => if has_active {
                Effect::Copy
            } else {
                Effect::Stay
            },
            Command::Close => {
                if has_active {
                    let a = self.mux.active_index();
                    let ghost o = *self;
                    self.mux.close_active();
                    proof {
                        assert forall|i: int| 0 <= i < self.insts().len() implies (#[trigger] self.insts()[i]).wf() by {
                            if i < a {
                                assert(self.insts()[i] == o.insts()[i]);
                            } else {
                                assert(self.insts()[i] == o.insts()[i + 1]);
                            }
                        }
                    }
                    Effect::Closed(a)
                } else {
                    self.say("No active instances");
                    Effect::Stay
                }
            },
            Command::Gutter => {
                self.gutter = !self.gutter;
                Effect::Stay
            },
            Command::Mux(m) => {
                match m {
                    MuxCommand::Tabs => self.mux.set_mode(MultiplexerMode::Tabs),
                    MuxCommand::Panes => self.mux.set_mode(MultiplexerMode::Panes),
                    MuxCommand::Swap => {
                        let mode = self.mux.mode().swap();
                        self.mux.set_mode(mode);
                    },
                    MuxCommand::Invalid(style) => {
                        let text = concat(concat("mux ", style.as_str()).as_str(), ": invalid style, one of `tabs`, `split`");
                        self.say(text.as_str());
                    },
                }
                Effect::Stay
            },
            Command::Filter(f) => self.apply_filter_command(f),
            Command::Export(words) => Effect::Export(words),
            Command::Jump(ln) => {
                if has_active {
                    let a = self.mux.active_index();
                    self.do_at(a, InstanceOp::Jump(ln));
                }
                Effect::Stay
            },
            Command::Invalid(word) => {
                let text = concat(word.as_str(), ": Invalid command");
                self.say(text.as_str());
                Effect::Stay
            },
            Command::Empty => Effect::Stay,
        };
        proof {
            lemma_wf_same(o, *self);
        }
        e
    }

    /// Does what the `filter` subcommand `f` asks.
    fn apply_filter_command(&mut self, f: FilterCommand) -> (e: Effect)
        requires
            old(self).wf(),
        ensures
            final(self).wf(),
            filter_done(*old(self), *final(self), f.view(), e),
    {
        let has_active = self.mux.active_index() < self.mux.len();
        let ghost o = *self;
        let e =         match f {
            FilterCommand::Link => {
                self.linked_filters = !self.linked_filters;
                proof {
                    lemma_wf_same(o, *self);
                }
                if self.linked_filters && has_active {
                    self.replicate();
                }
                Effect::Stay
            },
            FilterCommand::Persist => {
                self.persistent = !self.persistent;
                if self.persistent {
                    self.say("filter persist: persistence = true");
                } else {
                    self.say("filter persist: persistence = false");
                }
                Effect::Stay
            },
            FilterCommand::CopyTo(target) => {
                if !has_active {
                    return Effect::Stay;
                }
                match target {
                    IndexArg::Missing => {
                        self.say("filter export: requires instance index");
                        Effect::Stay
                    },
                    IndexArg::Invalid(word) => {
                        let text = concat(concat("filter export ", word.as_str()).as_str(), ": invalid index");
                        self.say(text.as_str());
                        Effect::Stay
                    },
                    IndexArg::Index(idx) => {
                        if idx == self.mux.active_index() {
                            self.say("filter export: cannot export to active instance");
                            Effect::Stay
                        } else if idx >= self.mux.len() {
                            Effect::InvalidTarget(idx)
                        } else {
                            self.import_from_active(idx);
                            Effect::Stay
                        }
                    },
                }
            },
            FilterCommand::Save(words) => if has_active {
                Effect::SaveFilters(words)
            } else {
                Effect::Stay
            },
            FilterCommand::Load => {
                self.mode = InputMode::Config;
                Effect::Stay
            },
            FilterCommand::Clear => {
                self.do_reached(InstanceOp::ClearFilters);
                Effect::Stay
            },
            FilterCommand::Union => {
                self.do_reached(InstanceOp::Strategy(CompositeStrategy::Union));
                Effect::Stay
            },
            FilterCommand::Intersect => {
                self.do_reached(InstanceOp::Strategy(CompositeStrategy::Intersection));
                Effect::Stay
            },
            FilterCommand::Invalid(cmd) => {
                let text = concat(concat("filter ", cmd.as_str()).as_str(), ": invalid subcommand");
                self.say(text.as_str());
                Effect::Stay
            },
            FilterCommand::Missing => {
                self.say(
                    "filter: requires subcommand, one of `r[egex]`, `l[it]`, `clear`, `union`, `intersect`",
                );
                Effect::Stay
            },
        };
        proof {
            lemma_wf_same(o, *self);
        }
        e
    }
}

/// How far a command-line move of kind `jump` goes.
pub open spec fn jump_motion(jump: CommandJump) -> Motion {
    match jump {
        CommandJump::Word => Motion::Word,
        CommandJump::Boundary => Motion::Boundary,
        CommandJump::Single => Motion::Chars(1),
    }
}

/// What switching to the mode `new` does to `o`, leaving `n`.
pub open spec fn switched(o: Viewer, n: Viewer, new: InputMode) -> bool {
    match mode_switch_spec(o.mode, new) {
        ModeSwitch::EnterVisual => ops_done(
            Viewer { mode: new, ..o },
            n,
            InstanceOp::EnterVisual,
            |i: int| i == o.active(),
        ),
        ModeSwitch::LoadSelectedPattern => match o.selected_pattern() {
            Some(p) => exists|t: Seq<char>, q: PromptApp|
                #[trigger] prompt_take(o.prompt, q, t) && if byte_len(q.current()) + byte_len(p) < usize::MAX {
                    exists|q2: PromptApp|
                        #[trigger] prompt_enter_str(q, q2, p) && n == (Viewer { mode: new, prompt: q2, ..o })
                } else {
                    n == (Viewer { prompt: q, ..o })
                },
            None => n == o,
        },
        ModeSwitch::ClearPrompt => exists|t: Seq<char>, q: PromptApp|
            #[trigger] prompt_take(o.prompt, q, t) && n == (Viewer { mode: new, prompt: q, ..o }),
        ModeSwitch::Keep => n == (Viewer { mode: new, ..o }),
    }
}

/// The buffer a pan names: the one given, else the active one.
pub open spec fn pan_target(o: Viewer, target_view: Option<usize>) -> int {
    match target_view {
        Some(t) => t as int,
        None => o.active(),
    }
}

/// What a normal-mode action does.
pub open spec fn normal_done(o: Viewer, n: Viewer, a: NormalAction) -> bool {
    match a {
        NormalAction::PanVertical { direction, delta, target_view } => ops_done(
            o,
            n,
            InstanceOp::PanVertical(direction, delta),
            |i: int| i == pan_target(o, target_view),
        ),
        NormalAction::PanHorizontal { direction, delta, target_view } => ops_done(
            o,
            n,
            InstanceOp::PanHorizontal(direction, delta),
            |i: int| i == pan_target(o, target_view),
        ),
        NormalAction::FollowOutput => ops_done(o, n, InstanceOp::Follow, |i: int| i == o.active()),
        NormalAction::SwitchActive(direction) => mux_moved(o, n) && n.mux.mode_view() == o.mux.mode_view()
            && n.active() == active_clamp(
            match direction {
                Direction::Back => if o.active() > 0 {
                    o.active() - 1
                } else {
                    0
                },
                Direction::Next => if o.active() < usize::MAX {
                    o.active() + 1
                } else {
                    usize::MAX as int
                },
            },
            o.insts().len() as int,
        ),
        NormalAction::SwitchActiveIndex { target_view } => mux_moved(o, n) && n.mux.mode_view()
            == o.mux.mode_view() && n.active() == active_clamp(target_view as int, o.insts().len() as int),
    }
}

/// What a visual-mode action does.
pub open spec fn visual_done(o: Viewer, n: Viewer, a: VisualAction) -> bool {
    match a {
        VisualAction::Move { direction, select, delta } => ops_done(
            o,
            n,
            InstanceOp::MoveSelect(direction, select, delta),
            |i: int| i == o.active(),
        ),
        VisualAction::ToggleSelectedLine => ops_done(
            o,
            n,
            InstanceOp::ToggleSelectedLine,
            |i: int| i == o.active(),
        ),
        VisualAction::ToggleLine { target_view, line_number } => ops_done(
            o,
            n,
            InstanceOp::ToggleLine(line_number),
            |i: int| i == target_view,
        ),
    }
}

/// What an action on the filter list does.
pub open spec fn filter_action_done(o: Viewer, n: Viewer, a: FilterAction) -> bool {
    match a {
        FilterAction::Move { direction, select, delta } => ops_done(
            o,
            n,
            InstanceOp::FilterMove(direction, select, delta),
            |i: int| o.reaches(i),
        ),
        FilterAction::ToggleSelectedFilter => ops_done(
            o,
            n,
            InstanceOp::ToggleSelectedFilters,
            |i: int| o.reaches(i),
        ),
        FilterAction::RemoveSelectedFilter => ops_done(
            o,
            n,
            InstanceOp::RemoveSelectedFilters,
            |i: int| o.reaches(i),
        ),
        FilterAction::Displace { .. } => n == o,
        FilterAction::ToggleSpecificFilter { target_view, filter_index } => if o.linked_filters {
            n == o
        } else {
            ops_done(o, n, InstanceOp::ToggleFilter(filter_index), |i: int| i == target_view)
        },
    }
}

/// The prompt `n` is `o` with its cursor moved.
pub open spec fn prompt_moved(o: PromptApp, n: PromptApp, back: bool, select: bool, m: Motion) -> bool {
    &&& n.wf()
    &&& n.history() == o.history()
    &&& n.index() == o.index()
    &&& n.draft() == o.draft()
    &&& n.cursor_state() == moved(o.current(), o.cursor_state(), back, select, m)
}

/// What an action on the command line does, and what it asks of the front
/// end.
pub open spec fn command_action_done(o: Viewer, n: Viewer, a: CommandAction, e: Effect) -> bool {
    let cur = o.prompt.current();
    let fits = cursor_fits(cur, o.prompt.cursor_state());
    match a {
        CommandAction::Move { direction, select, jump } => e is Stay && {
            let back = direction == Direction::Back;
            if move_ok(cur, o.prompt.cursor_state(), back, select, jump_motion(jump)) {
                exists|q: PromptApp|
                    #[trigger] prompt_moved(o.prompt, q, back, select, jump_motion(jump)) && n == (Viewer {
                        prompt: q,
                        ..o
                    })
            } else {
                n == o
            }
        },
        CommandAction::Type { input } => e is Stay && if fits && byte_len(cur) + byte_len(seq![input]) < usize::MAX {
            exists|q: PromptApp| #[trigger] prompt_enter_char(o.prompt, q, input) && n == (Viewer { prompt: q, ..o })
        } else {
            n == o
        },
        CommandAction::Paste { input } => e is Stay && if fits && byte_len(cur) + byte_len(input@) < usize::MAX {
            exists|q: PromptApp| #[trigger] prompt_enter_str(o.prompt, q, input@) && n == (Viewer { prompt: q, ..o })
        } else {
            n == o
        },
        CommandAction::Backspace => e is Stay && if fits {
            exists|q: PromptApp, r: bool|
                #[trigger] prompt_delete(o.prompt, q, r) && n == (Viewer {
                    prompt: q,
                    mode: if r {
                        o.mode
                    } else {
                        InputMode::Normal
                    },
                    ..o
                })
        } else {
            n == o
        },
        CommandAction::Submit => match o.mode {
            InputMode::Prompt(PromptMode::Command) => exists|q: PromptApp, t: Seq<char>|
                #[trigger] prompt_submit(o.prompt, q, t) && command_done(
                    Viewer { mode: InputMode::Normal, prompt: q, ..o },
                    n,
                    command_of(t),
                    e,
                ),
            InputMode::Prompt(PromptMode::Search { escaped, edit }) => e is Stay && exists|q: PromptApp, t: Seq<char>|
                #[trigger] prompt_take(o.prompt, q, t) && {
                    let m = Viewer { mode: InputMode::Normal, prompt: q, ..o };
                    if t.len() == 0 {
                        n == m
                    } else {
                        searched(m, n, t, escaped)
                    }
                },
            InputMode::Prompt(PromptMode::Shell { pipe }) => exists|q: PromptApp, t: Seq<char>|
                #[trigger] prompt_take(o.prompt, q, t) && n == (Viewer { mode: InputMode::Normal, prompt: q, ..o })
                    && (e matches Effect::Shell { command, pipe: p } && command@ == t && p == pipe),
            _ => e is Stay && n == o,
        },
        CommandAction::History { direction } => e is Stay && if o.mode == InputMode::Prompt(PromptMode::Command) {
            match direction {
                Direction::Back => exists|q: PromptApp|
                    #[trigger] prompt_backward(o.prompt, q) && n == (Viewer { prompt: q, ..o }),
                Direction::Next => exists|q: PromptApp|
                    #[trigger] prompt_forward(o.prompt, q) && n == (Viewer { prompt: q, ..o }),
            }
        } else {
            n == o
        },
        CommandAction::Complete => e is Stay && n == o,
    }
}

/// What the action `a` does to `o`, leaving `n`, and what it asks of the
/// front end.
pub open spec fn action_done(o: Viewer, n: Viewer, a: Action, e: Effect) -> bool {
    match a {
        Action::Exit => e is Quit && n == o,
        Action::SwitchMode(m) => e is Stay && switched(o, n, m),
        Action::Normal(x) => e is Stay && normal_done(o, n, x),
        Action::Visual(x) => e is Stay && visual_done(o, n, x),
        Action::Filter(x) => e is Stay && filter_action_done(o, n, x),
        Action::Config(x) => e == Effect::Config(x) && n == o,
        Action::Command(x) => command_action_done(o, n, x, e),
        Action::ExportFile(path) => if o.has_active() {
            n == o && (e matches Effect::ExportFile(p) && p@ == path@)
        } else {
            e is Stay && said(o, n, "No active instances"@)
        },
    }
}

/// The cursor position that stands for the selection: the end that moves.
fn focus_of(c: Cursor) -> (r: usize)
    ensures
        r == focus(c),
{
    match c {
        Cursor::Singleton(i) => i,
        Cursor::Selection(i, _, crate::cursor::SelectionOrigin::Left) => i,
        Cursor::Selection(_, i, crate::cursor::SelectionOrigin::Right) => i,
    }
}

/// The empty line's start is a boundary of every line.
proof fn lemma_zero_fits(s: Seq<char>)
    ensures
        cursor_fits(s, Cursor::Singleton(0)),
{
    assert(s.take(0) =~= Seq::<char>::empty());
    assert(crate::editor::offset(s, 0) == 0);
}

impl Viewer {
    /// The pattern of the filter selected in the active buffer, when it is a
    /// search.
    fn selected_pattern_of(&self) -> (r: Option<String>)
        requires
            self.wf(),
        ensures
            r is Some <==> self.selected_pattern() is Some,
            r matches Some(p) ==> self.selected_pattern() == Some(p@),
    {
        let a = self.mux.active_index();
        if a >= self.mux.len() {
            return None;
        }
        let inst = &self.mux.instances()[a];
        proof {
            inst.compositor_spec().lemma_wf();
        }
        let c = inst.compositor();
        let i = focus_of(c.cursor().state);
        match c.filters().get(i) {
            Some(f) => if f.is_search() {
                Some(f.mask().clone())
            } else {
                None
            },
            None => None,
        }
    }

    /// Switches to the mode `new`, with what the switch brings.
    fn switch_mode(&mut self, new: InputMode)
        requires
            old(self).wf(),
        ensures
            final(self).wf(),
            switched(*old(self), *final(self), new),
    {
        let ghost o = *self;
        let old_mode = self.mode;
        match mode_switch(old_mode, new) {
            ModeSwitch::EnterVisual => {
                self.mode = new;
                proof {
                    lemma_wf_same(o, *self);
                }
                let a = self.mux.active_index();
                self.do_at(a, InstanceOp::EnterVisual);
            },
            ModeSwitch::LoadSelectedPattern => {
                match self.selected_pattern_of() {
                    Some(p) => {
                        let t = self.prompt.take();
                        let ghost q = self.prompt;
                        assert(prompt_take(o.prompt, q, t@));
                        let room = match byte_len_of(p.as_str()) {
                            Some(w) => {
                                let l = self.prompt.line_len();
                                l < usize::MAX && w < usize::MAX - l
                            },
                            None => false,
                        };
                        if room {
                            proof {
                                lemma_zero_fits(self.prompt.current());
                            }
                            self.prompt.enter_str(p.as_str());
                            self.mode = new;
                            assert(prompt_enter_str(q, self.prompt, p@));
                        }
                        proof {
                            lemma_wf_same(o, *self);
                        }
                    },
                    None => {},
                }
            },
            ModeSwitch::ClearPrompt => {
                self.mode = new;
                let t = self.prompt.take();
                assert(prompt_take(o.prompt, self.prompt, t@));
                proof {
                    lemma_wf_same(o, *self);
                }
            },
            ModeSwitch::Keep => {
                self.mode = new;
                proof {
                    lemma_wf_same(o, *self);
                }
            },
        }
    }
}

impl Viewer {
    /// Does what the command-line action `a` asks.
    fn command_action(&mut self, a: CommandAction) -> (e: Effect)
        requires
            old(self).wf(),
        ensures
            final(self).wf(),
            command_action_done(*old(self), *final(self), a, e),
    {
        let ghost o = *self;
        match a {
            CommandAction::Move { direction, select, jump } => {
                let delta = match jump {
                    CommandJump::Word => PromptDelta::Word,
                    CommandJump::Boundary => PromptDelta::Boundary,
                    CommandJump::Single => PromptDelta::Number(1),
                };
                let movement = PromptMovement::new(select, delta);
                let back = match direction {
                    Direction::Back => true,
                    Direction::Next => false,
                };
                assert(movement.motion() == jump_motion(jump));
                if self.prompt.can_move(direction, movement) {
                    self.prompt.move_cursor(direction, movement);
                    assert(prompt_moved(o.prompt, self.prompt, back, select, jump_motion(jump)));
                    proof {
                        lemma_wf_same(o, *self);
                    }
                }
                Effect::Stay
            },
            CommandAction::Type { input } => {
                if self.prompt.cursor_fits_line() {
                    let l = self.prompt.line_len();
                    let w = width_of(input);
                    proof {
                        crate::editor::lemma_byte_len_concat(Seq::<char>::empty(), seq![input]);
                        assert(Seq::<char>::empty() + seq![input] =~= seq![input]);
                        assert(seq![input].drop_last() =~= Seq::<char>::empty());
                    }
                    if l < usize::MAX && w < usize::MAX - l {
                        self.prompt.enter_char(input);
                        assert(prompt_enter_char(o.prompt, self.prompt, input));
                        proof {
                            lemma_wf_same(o, *self);
                        }
                    }
                }
                Effect::Stay
            },
            CommandAction::Paste { input } => {
                if self.prompt.cursor_fits_line() {
                    let l = self.prompt.line_len();
                    let room = match byte_len_of(input.as_str()) {
                        Some(w) => l < usize::MAX && w < usize::MAX - l,
                        None => false,
                    };
                    if room {
                        self.prompt.enter_str(input.as_str());
                        assert(prompt_enter_str(o.prompt, self.prompt, input@));
                        proof {
                            lemma_wf_same(o, *self);
                        }
                    }
                }
                Effect::Stay
            },
            CommandAction::Backspace => {
                if self.prompt.cursor_fits_line() {
                    let r = self.prompt.delete();
                    assert(prompt_delete(o.prompt, self.prompt, r));
                    if !r {
                        self.mode = InputMode::Normal;
                    }
                    proof {
                        lemma_wf_same(o, *self);
                    }
                }
                Effect::Stay
            },
            CommandAction::Submit => match self.mode {
                InputMode::Prompt(PromptMode::Command) => {
                    self.mode = InputMode::Normal;
                    let t = self.prompt.submit();
                    assert(prompt_submit(o.prompt, self.prompt, t@));
                    proof {
                        lemma_wf_same(o, *self);
                    }
                    let cmd = parse_command(t.as_str());
                    self.apply_command(cmd)
                },
                InputMode::Prompt(PromptMode::Search { escaped, edit }) => {
                    self.mode = InputMode::Normal;
                    let t = self.prompt.take();
                    assert(prompt_take(o.prompt, self.prompt, t@));
                    proof {
                        lemma_wf_same(o, *self);
                    }
                    if !t.as_str().is_empty() {
                        self.search(t.as_str(), escaped);
                    }
                    Effect::Stay
                },
                InputMode::Prompt(PromptMode::Shell { pipe }) => {
                    self.mode = InputMode::Normal;
                    let t = self.prompt.take();
                    assert(prompt_take(o.prompt, self.prompt, t@));
                    proof {
                        lemma_wf_same(o, *self);
                    }
                    Effect::Shell { command: t, pipe }
                },
                _ => Effect::Stay,
            },
            CommandAction::History { direction } => {
                let in_command = match self.mode {
                    InputMode::Prompt(PromptMode::Command) => true,
                    _ => false,
                };
                if in_command {
                    match direction {
                        Direction::Back => {
                            self.prompt.backward();
                            assert(prompt_backward(o.prompt, self.prompt));
                        },
                        Direction::Next => {
                            self.prompt.forward();
                            assert(prompt_forward(o.prompt, self.prompt));
                        },
                    }
                    proof {
                        lemma_wf_same(o, *self);
                    }
                }
                Effect::Stay
            },
            CommandAction::Complete => Effect::Stay,
        }
    }

    /// Does what the action `action` asks and says what is left for the
    /// front end to do.
    pub fn process_action(&mut self, action: Action) -> (e: Effect)
        requires
            old(self).wf(),
        ensures
            final(self).wf(),
            action_done(*old(self), *final(self), action, e),
    {
        let ghost o = *self;
        match action {
            Action::Exit => Effect::Quit,
            Action::SwitchMode(m) => {
                self.switch_mode(m);
                Effect::Stay
            },
            Action::Normal(x) => {
                match x {
                    NormalAction::PanVertical { direction, delta, target_view } => {
                        let t = match target_view {
                            Some(t) => t,
                            None => self.mux.active_index(),
                        };
                        self.do_at(t, InstanceOp::PanVertical(direction, delta));
                    },
                    NormalAction::PanHorizontal { direction, delta, target_view } => {
                        let t = match target_view {
                            Some(t) => t,
                            None => self.mux.active_index(),
                        };
                        self.do_at(t, InstanceOp::PanHorizontal(direction, delta));
                    },
                    NormalAction::FollowOutput => {
                        let a = self.mux.active_index();
                        self.do_at(a, InstanceOp::Follow);
                    },
                    NormalAction::SwitchActive(direction) => {
                        self.mux.move_active(direction);
                        proof {
                            lemma_wf_same(o, *self);
                        }
                    },
                    NormalAction::SwitchActiveIndex { target_view } => {
                        self.mux.move_active_index(target_view);
                        proof {
                            lemma_wf_same(o, *self);
                        }
                    },
                }
                Effect::Stay
            },
            Action::Visual(x) => {
                match x {
                    VisualAction::Move { direction, select, delta } => {
                        let a = self.mux.active_index();
                        self.do_at(a, InstanceOp::MoveSelect(direction, select, delta));
                    },
                    VisualAction::ToggleSelectedLine => {
                        let a = self.mux.active_index();
                        self.do_at(a, InstanceOp::ToggleSelectedLine);
                    },
                    VisualAction::ToggleLine { target_view, line_number } => {
                        self.do_at(target_view, InstanceOp::ToggleLine(line_number));
                    },
                }
                Effect::Stay
            },
            Action::Filter(x) => {
                match x {
                    FilterAction::Move { direction, select, delta } => {
                        self.do_reached(InstanceOp::FilterMove(direction, select, delta));
                    },
                    FilterAction::ToggleSelectedFilter => {
                        self.do_reached(InstanceOp::ToggleSelectedFilters);
                    },
                    FilterAction::RemoveSelectedFilter => {
                        self.do_reached(InstanceOp::RemoveSelectedFilters);
                    },
                    FilterAction::Displace { .. } => {},
                    FilterAction::ToggleSpecificFilter { target_view, filter_index } => {
                        if !self.linked_filters {
                            self.do_at(target_view, InstanceOp::ToggleFilter(filter_index));
                        }
                    },
                }
                Effect::Stay
            },
            Action::Config(x) => Effect::Config(x),
            Action::Command(x) => self.command_action(x),
            Action::ExportFile(path) => {
                if self.mux.active_index() < self.mux.len() {
                    Effect::ExportFile(path)
                } else {
                    self.say("No active instances");
                    Effect::Stay
                }
            },
        }
    }
}

} // verus!
