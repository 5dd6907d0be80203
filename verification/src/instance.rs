use vstd::prelude::*;

use crate::filters::SearchError;

use crate::buffer::SegBuffer;
use crate::colors::Color;
use crate::cursor::{Cursor, CursorState};
use crate::filters::{
    active_lines, data_lines, removal_ok, removed_under, under_cursor, Compositor, Filter, Filters,
};
use crate::lineset::{first_lines, in_any, in_every, CompositeStrategy, LineSet};
use crate::viewer::{line_color, lines_within, matches_line, rows_fit, settled_view, CachedLine, ViewCache};
use crate::cursor::{clamp_spec, SelectionOrigin};
use crate::filters::{focus, jump_back_over, jump_next_over, move_pos, toggled};
use crate::actions::ViewDelta;
use crate::cursor::{back_arg, back_spec, forward_spec};
use crate::direction::Direction;
use crate::viewport::{dist, jump_top, sat_add};
use crate::buffer::joined_bytes;
use crate::colors::ColorSelector;
use crate::err::Error;
use crate::filters::{import_error, imported, mask_text, FilterData, FilterExport};
use crate::search::{holds_byte, regex_compiles, regex_escaped, regex_find_at, search_spec};
use crate::viewport::sat_sub;
use crate::viewport::Viewport;

verus! {

/// Every filter of `fs` matches only lines `buf` can be asked for.
pub open spec fn filters_within<M, C>(fs: Seq<Filter<M, C>>, buf: SegBuffer) -> bool {
    forall|k: int|
        0 <= k < fs.len() ==> match data_lines((#[trigger] fs[k]).spec_data()) {
            Some(ls) => lines_within(ls, buf),
            None => true,
        }
}

/// The lines `lines` are those a view of the compositor `c` shows: every
/// line while its filter of every line is on, else the composition of its
/// enabled filters by its strategy.
pub open spec fn composite_of<M, C>(c: Compositor<M, C>, lines: Seq<usize>) -> bool {
    if c.spec_filters().list()[0].spec_enabled() {
        lines == c.spec_all().lines()
    } else {
        let l = active_lines(c.spec_filters().list());
        &&& l.len() == 0 ==> lines == Seq::<usize>::empty()
        &&& l.len() > 0 && c.spec_strategy() == CompositeStrategy::Union ==> forall|x: usize|
            #[trigger] lines.contains(x) <==> in_any(l, x)
        &&& l.len() > 0 && c.spec_strategy() == CompositeStrategy::Intersection ==> forall|x: usize|
            #[trigger] lines.contains(x) <==> in_every(l, x)
    }
}

/// The lines of the enabled filters lie within the buffer.
proof fn lemma_active_within<M, C>(fs: Seq<Filter<M, C>>, buf: SegBuffer)
    requires
        filters_within(fs, buf),
    ensures
        forall|q: int, x: usize|
            0 <= q < active_lines(fs).len() && #[trigger] active_lines(fs)[q].contains(x) ==> x
                <= buf.line_total(),
    decreases fs.len(),
{
    if fs.len() > 0 {
        let rest = fs.drop_last();
        assert forall|k: int| 0 <= k < rest.len() implies match data_lines((#[trigger] rest[k]).spec_data()) {
            Some(ls) => lines_within(ls, buf),
            None => true,
        } by {
            assert(rest[k] == fs[k]);
        }
        lemma_active_within(rest, buf);
        let f = fs.last();
        assert(f == fs[fs.len() - 1]);
        assert forall|q: int, x: usize|
            0 <= q < active_lines(fs).len() && #[trigger] active_lines(fs)[q].contains(x) implies x
            <= buf.line_total() by {
            if q < active_lines(rest).len() {
                assert(active_lines(fs)[q] == active_lines(rest)[q]);
            } else {
                let ls = active_lines(fs)[q];
                let j = choose|j: int| 0 <= j < ls.len() && ls[j] == x;
                match data_lines(f.spec_data()) {
                    Some(l) => {
                        assert(ls == l);
                        assert(l[j] <= buf.line_total());
                    },
                    None => {},
                }
            }
        }
    }
}

/// The lines a compositor whose filters lie within the buffer composes lie
/// within it too.
proof fn lemma_composite_within<M, C>(c: Compositor<M, C>, lines: Seq<usize>, buf: SegBuffer)
    requires
        composite_of(c, lines),
        c.spec_all().lines() == first_lines(buf.line_total()),
        filters_within(c.spec_filters().list(), buf),
        c.spec_filters().list().len() > 0,
    ensures
        lines_within(lines, buf),
{
    let fs = c.spec_filters().list();
    lemma_active_within(fs, buf);
    let l = active_lines(fs);
    assert forall|k: int| 0 <= k < lines.len() implies #[trigger] lines[k] <= buf.line_total() by {
        let x = lines[k];
        assert(lines.contains(x));
        if fs[0].spec_enabled() {
        } else if l.len() > 0 {
            if c.spec_strategy() == CompositeStrategy::Union {
                let q = choose|q: int| 0 <= q < l.len() && #[trigger] l[q].contains(x);
                assert(l[q].contains(x));
            } else {
                assert(l[0].contains(x));
            }
        }
    }
}

/// The filters a removal keeps are among those there were.
proof fn lemma_removed_from<T>(user: Seq<T>, c: Cursor)
    requires
        removal_ok(user.len() as int, c),
    ensures
        forall|j: int| 0 <= j < removed_under(user, c).len() ==> user.contains(#[trigger] removed_under(user, c)[j]),
{
    let r = removed_under(user, c);
    assert forall|j: int| 0 <= j < r.len() implies user.contains(#[trigger] r[j]) by {
        match c {
            Cursor::Singleton(i) => {
                if i > 1 {
                    if j < i - 2 {
                        assert(r[j] == user[j]);
                    } else {
                        assert(r[j] == user[j + 1]);
                    }
                } else {
                    assert(r[j] == user[j]);
                }
            },
            Cursor::Selection(a, b, _) => {
                let a2 = if a > 2 { a as int } else { 2int };
                if a2 <= b {
                    if j < a2 - 2 {
                        assert(r[j] == user[j]);
                    } else {
                        assert(r[j] == user[j - (a2 - 2) + (b - 1)]);
                    }
                } else {
                    assert(r[j] == user[j]);
                }
            },
        }
    }
}

/// No enabled filter of `fs` matches line `ln`.
pub open spec fn none_active_has<M, C>(fs: Seq<Filter<M, C>>, ln: usize) -> bool {
    forall|k: int| 0 <= k < fs.len() ==> !((#[trigger] fs[k]).spec_enabled() && matches_line(fs[k], ln))
}

/// Whether no enabled filter of `filters` matches line `ln`.
pub fn no_active_filter_has<M, C>(filters: &Filters<M, C>, ln: usize) -> (r: bool)
    requires
        filters.wf(),
    ensures
        r == none_active_has(filters.list(), ln),
{
    let n = filters.len();
    let ghost fs = filters.list();
    let mut k: usize = 0;
    while k < n
        invariant
            k <= n == fs.len(),
            fs == filters.list(),
            filters.wf(),
            forall|j: int| 0 <= j < k ==> !((#[trigger] fs[j]).spec_enabled() && matches_line(fs[j], ln)),
        decreases n - k,
    {
        let f = filters.get(k).unwrap();
        if f.is_enabled() && f.has_line(ln) {
            return false;
        }
        k = k + 1;
    }
    true
}

/// A change of the bookmarks alone, to lines within the buffer, keeps the
/// filters within it.
proof fn lemma_bookmarks_within<M, C>(before: Compositor<M, C>, after: Compositor<M, C>, buf: SegBuffer)
    requires
        before.wf(),
        after.wf(),
        filters_within(before.spec_filters().list(), buf),
        after.spec_filters().user_list() == before.spec_filters().user_list(),
        forall|x: usize|
            #[trigger] after.spec_filters().bookmark_lines().contains(x) ==> before.spec_filters().bookmark_lines().contains(x)
                || x <= buf.line_total(),
    ensures
        filters_within(after.spec_filters().list(), buf),
{
    before.lemma_wf();
    after.lemma_wf();
    before.spec_filters().lemma_builtins();
    after.spec_filters().lemma_builtins();
    let fs = after.spec_filters().list();
    let gs = before.spec_filters().list();
    let b0 = before.spec_filters().bookmark_lines();
    let b1 = after.spec_filters().bookmark_lines();
    assert(match data_lines(gs[1].spec_data()) {
        Some(ls) => lines_within(ls, buf),
        None => true,
    });
    assert forall|k: int| 0 <= k < fs.len() implies match data_lines((#[trigger] fs[k]).spec_data()) {
        Some(ls) => lines_within(ls, buf),
        None => true,
    } by {
        if k >= 2 {
            assert(fs[k] == gs[k]);
        } else if k == 1 {
            assert forall|j: int| 0 <= j < b1.len() implies #[trigger] b1[j] <= buf.line_total() by {
                assert(b1.contains(b1[j]));
                if b0.contains(b1[j]) {
                    let i = choose|i: int| 0 <= i < b0.len() && b0[i] == b1[j];
                    assert(b0[i] <= buf.line_total());
                }
            }
        }
    }
}

/// The lines under cursor `c` among the rows `lines`.
pub open spec fn select_lines(c: Cursor, lines: Seq<usize>) -> Seq<usize> {
    match c {
        Cursor::Singleton(i) => seq![lines[i as int]],
        Cursor::Selection(a, b, _) => if a <= b {
            lines.subrange(a as int, b + 1)
        } else {
            Seq::empty()
        },
    }
}

/// The bookmarks `after` are `before` with the lines `lines` unmarked
/// where they were all marked, else with them all marked.
pub open spec fn select_toggled(before: Seq<usize>, after: Seq<usize>, lines: Seq<usize>) -> bool {
    let present = forall|j: int| 0 <= j < lines.len() ==> before.contains(#[trigger] lines[j]);
    forall|x: usize|
        #[trigger] after.contains(x) <==> (if present {
            before.contains(x) && !lines.contains(x)
        } else {
            before.contains(x) || lines.contains(x)
        })
}

/// Toggling the bookmarks of the same lines twice gives back the bookmarks
/// there were, where the lines were all marked or all unmarked.
pub proof fn law_select_bookmarks_twice(before: Seq<usize>, mid: Seq<usize>, after: Seq<usize>, lines: Seq<usize>)
    requires
        select_toggled(before, mid, lines),
        select_toggled(mid, after, lines),
        lines.len() > 0,
        (forall|j: int| 0 <= j < lines.len() ==> before.contains(#[trigger] lines[j])) || (forall|j: int|
            0 <= j < lines.len() ==> !before.contains(#[trigger] lines[j])),
    ensures
        forall|x: usize| #[trigger] after.contains(x) <==> before.contains(x),
{
    let all_in = forall|j: int| 0 <= j < lines.len() ==> before.contains(#[trigger] lines[j]);
    assert(lines.contains(lines[0]));
    if all_in {
        assert(!mid.contains(lines[0]));
        assert(!(forall|j: int| 0 <= j < lines.len() ==> mid.contains(#[trigger] lines[j])));
        assert forall|x: usize| #[trigger] after.contains(x) <==> before.contains(x) by {
            if lines.contains(x) {
                let j = choose|j: int| 0 <= j < lines.len() && lines[j] == x;
                assert(before.contains(lines[j]));
            }
        }
    } else {
        assert(!before.contains(lines[0]));
        assert forall|j: int| 0 <= j < lines.len() implies mid.contains(#[trigger] lines[j]) by {
            assert(lines.contains(lines[j]));
        }
        assert forall|x: usize| #[trigger] after.contains(x) <==> before.contains(x) by {
            if lines.contains(x) {
                let j = choose|j: int| 0 <= j < lines.len() && lines[j] == x;
                assert(!before.contains(lines[j]));
            }
        }
    }
}

/// The cursor `c` lies on the `n` rows.
pub open spec fn cursor_in_rows(c: Cursor, n: nat) -> bool {
    match c {
        Cursor::Singleton(i) => i < n,
        Cursor::Selection(a, b, _) => a <= b ==> b < n,
    }
}

/// The line a jump in direction `dir` from position `i` reaches by the
/// filters of `c`: the next or previous position while every line is shown,
/// else the nearest line an enabled filter finds.
pub open spec fn jump_of<M, C>(c: Compositor<M, C>, i: usize, dir: Direction) -> Option<usize> {
    if !c.spec_filters().list()[0].spec_enabled() {
        match dir {
            Direction::Back => Some(sat_sub(i as int, 1) as usize),
            Direction::Next => Some((i + 1) as usize),
        }
    } else {
        match dir {
            Direction::Back => jump_back_over(c.spec_filters().list(), i),
            Direction::Next => jump_next_over(c.spec_filters().list(), i),
        }
    }
}

/// The number of rows a move by `delta` from position `i` covers in a view
/// `height` rows high: a count, a page, half a page rounded up, all the
/// way, or the distance to the line a jump reaches.
pub open spec fn step_of<M, C>(c: Compositor<M, C>, height: usize, delta: ViewDelta, dir: Direction, i: usize) -> usize {
    match delta {
        ViewDelta::Number(n) => n as usize,
        ViewDelta::Page => height,
        ViewDelta::HalfPage => (height / 2 + height % 2) as usize,
        ViewDelta::Boundary => usize::MAX,
        ViewDelta::Match => dist(
            i as int,
            match jump_of(c, i, dir) {
                Some(j) => j as int,
                None => i as int,
            },
        ) as usize,
    }
}

/// The lines a search finds are lines of the index it searched by.
proof fn lemma_search_lines(pattern: Seq<char>, data: Seq<u8>, off: Seq<u64>, pos: int)
    requires
        search_spec(pattern, data, off, pos) is Some,
    ensures
        forall|j: int|
            0 <= j < search_spec(pattern, data, off, pos)->0.len() ==> #[trigger] search_spec(
                pattern,
                data,
                off,
                pos,
            )->0[j] + 1 < off.len(),
    decreases data.len() - pos,
{
    let v = search_spec(pattern, data, off, pos)->0;
    match regex_find_at(pattern, data, pos as usize) {
        None => {},
        Some(m) => {
            let k = choose|k: int| #[trigger] holds_byte(off, k, m.0 as int);
            let next = off[k + 1] as int;
            lemma_search_lines(pattern, data, off, next);
            let rest = search_spec(pattern, data, off, next)->0;
            assert(v == seq![k as usize] + rest);
            assert forall|j: int| 0 <= j < v.len() implies #[trigger] v[j] + 1 < off.len() by {
                if j > 0 {
                    assert(v[j] == rest[j - 1]);
                }
            }
        },
    }
}

/// What showing afresh does to the view `before` of the filters `c`: a
/// view of every line that should stay one has its rows recoloured, any
/// other shows the lines the filters compose, with no rows kept.
pub open spec fn refreshed(before: ViewCache, c: Compositor<String, Color>, after: ViewCache) -> bool {
    if before.lines_shown() is All && c.spec_filters().list()[0].spec_enabled() {
        &&& after.lines_shown() == before.lines_shown()
        &&& after.recolor_pending()
        &&& after.view() == before.view()
    } else {
        let v = before.view()@;
        let old_lines = before.lines_shown().lines();
        let new_lines = after.lines_shown().lines();
        &&& composite_of(c, new_lines)
        &&& after.rows() == Seq::<CachedLine>::empty()
        &&& after.view()@.1 == v.1 && after.view()@.2 == v.2 && after.view()@.3 == v.3
        &&& if v.0 < old_lines.len() && new_lines.contains(old_lines[v.0 as int]) {
            let t = after.view()@.0;
            t < new_lines.len() && new_lines[t as int] == old_lines[v.0 as int]
        } else {
            after.view()@.0 == v.0
        }
    }
}

/// Which of the marks of a row apply: the row the cursor is on, the first
/// or last row of a selection, a row inside a selection, a bookmarked line.
#[derive(Clone, Copy, PartialEq, Eq, Debug, Structural)]
pub struct LineType {
    pub origin: bool,
    pub origin_start: bool,
    pub origin_end: bool,
    pub within: bool,
    pub bookmarked: bool,
}

/// The marks of the row at position `index` under cursor `c`, with the
/// bookmark mark `bookmarked`.
pub open spec fn line_type(c: Cursor, index: usize, bookmarked: bool) -> LineType {
    match c {
        Cursor::Singleton(i) => LineType {
            origin: index == i,
            origin_start: false,
            origin_end: false,
            within: false,
            bookmarked,
        },
        Cursor::Selection(start, end, _) => {
            let inside = start <= index <= end;
            LineType {
                origin: inside && (index == start || index == end),
                origin_start: inside && index == start,
                origin_end: inside && index != start && index == end,
                within: inside && index != start && index != end,
                bookmarked,
            }
        },
    }
}

/// The marks of the row at position `index` under cursor `c`.
pub fn line_type_of(c: Cursor, index: usize, bookmarked: bool) -> (r: LineType)
    ensures
        r == line_type(c, index, bookmarked),
{
    match c {
        Cursor::Singleton(i) => LineType {
            origin: index == i,
            origin_start: false,
            origin_end: false,
            within: false,
            bookmarked,
        },
        Cursor::Selection(start, end, _) => {
            let inside = start <= index && index <= end;
            LineType {
                origin: inside && (index == start || index == end),
                origin_start: inside && index == start,
                origin_end: inside && index != start && index == end,
                within: inside && index != start && index != end,
                bookmarked,
            }
        },
    }
}

/// Row `row` has the colour and bookmark mark the filters `c` give its
/// line.
pub open spec fn fresh_row(row: CachedLine, c: Compositor<String, Color>) -> bool {
    &&& row.color == line_color(c.spec_filters().list(), row.line_number)
    &&& row.bookmarked == c.spec_filters().bookmark_lines().contains(row.line_number)
}

/// A row as shown: its line, text, first visible column, colour and marks.
pub struct LineData {
    pub line_number: usize,
    pub data: String,
    pub start: usize,
    pub color: Color,
    pub ty: LineType,
}

/// An open buffer with its filters, the cursor over its lines and the view
/// that shows them.
pub struct Instance {
    name: String,
    buf: SegBuffer,
    cursor: CursorState,
    compositor: Compositor<String, Color>,
    view: ViewCache,
}

impl Instance {
    /// The buffer.
    pub closed spec fn buffer(&self) -> SegBuffer {
        self.buf
    }

    /// The filters and their composition.
    pub closed spec fn compositor_spec(&self) -> Compositor<String, Color> {
        self.compositor
    }

    /// The view of the lines.
    pub closed spec fn view_spec(&self) -> ViewCache {
        self.view
    }

    /// The cursor over the rows of the view.
    pub closed spec fn cursor_spec(&self) -> Cursor {
        self.cursor.state
    }

    /// The name.
    pub closed spec fn name_spec(&self) -> Seq<char> {
        self.name@
    }

    /// The buffer, the filters and the view agree: every line the filters
    /// and the view hold is a line of the buffer.
    pub open spec fn wf(&self) -> bool {
        &&& self.buffer().wf()
        &&& self.compositor_spec().wf()
        &&& self.compositor_spec().spec_all().lines() == first_lines(self.buffer().line_total())
        &&& filters_within(self.compositor_spec().spec_filters().list(), self.buffer())
        &&& self.view_spec().wf(self.buffer())
        &&& lines_within(self.view_spec().lines_shown().lines(), self.buffer())
    }

    /// The number of rows the view can show.
    pub open spec fn visible_count(&self) -> nat {
        self.view_spec().lines_shown().spec_len()
    }

    /// An instance named `name` showing every line of `buf`, with no
    /// filter added and nothing bookmarked.
    pub fn new(name: String, buf: SegBuffer) -> (r: Self)
        requires
            buf.wf(),
        ensures
            r.wf(),
            r.name_spec() == name@,
            r.buffer() == buf,
            r.cursor_spec() == Cursor::Singleton(0),
            r.compositor_spec().spec_filters().list().len() == 2,
            r.compositor_spec().spec_filters().list()[0].spec_enabled(),
            r.compositor_spec().spec_filters().list()[1].spec_enabled(),
            r.compositor_spec().spec_filters().bookmark_lines() == Seq::<usize>::empty(),
            r.compositor_spec().spec_strategy() == CompositeStrategy::Union,
            r.view_spec().lines_shown().lines() == first_lines(buf.line_total()),
            r.view_spec().rows() == Seq::<crate::viewer::CachedLine>::empty(),
            r.view_spec().view()@ == (0usize, 0usize, 0usize, 0usize),
            !r.view_spec().follows(),
    {
        let filters = Filters::new(
            Filter::all(String::from_str("All Lines"), Color::White),
            Filter::bookmark(String::from_str("Bookmarks"), Color::Indexed(170)),
        );
        let all = buf.all_line_matches();
        let compositor = Compositor::new(all, filters);
        let composite = compositor.create_composite();
        let view = ViewCache::new(composite);
        let r = Instance { name, buf, cursor: CursorState::new(), compositor, view };
        proof {
            let fs = r.compositor.spec_filters().list();
            r.compositor.lemma_wf();
            r.compositor.spec_filters().lemma_builtins();
            assert(fs[0].spec_data() is All);
            assert forall|k: int| 0 <= k < fs.len() implies match data_lines((#[trigger] fs[k]).spec_data()) {
                Some(ls) => lines_within(ls, r.buf),
                None => true,
            } by {
                if k == 1 {
                    assert(fs[1].spec_data() matches crate::filters::FilterData::Bookmarks(b) && b.lines()
                        == Seq::<usize>::empty());
                }
            }
            assert(r.view.wf(r.buf));
            lemma_composite_within(r.compositor, composite.lines(), r.buf);
        }
        r
    }

    /// The buffer.
    pub fn file(&self) -> (r: &SegBuffer)
        ensures
            *r == self.buffer(),
    {
        &self.buf
    }

    /// The name.
    pub fn name(&self) -> (r: &str)
        ensures
            r@ == self.name_spec(),
    {
        self.name.as_str()
    }

    /// The viewport over the rows.
    pub fn viewport(&self) -> (r: &Viewport)
        ensures
            *r == self.view_spec().view(),
    {
        self.view.viewport()
    }

    /// The set of lines the view shows.
    pub fn composite(&self) -> (r: &LineSet)
        ensures
            *r == self.view_spec().lines_shown(),
    {
        self.view.composite()
    }

    /// Whether the view keeps to the end of the lines.
    pub fn is_following_output(&self) -> (r: bool)
        ensures
            r == self.view_spec().follows(),
    {
        self.view.is_following_output()
    }

    /// The number of rows the view can show.
    pub fn visible_line_count(&self) -> (r: usize)
        requires
            self.wf(),
        ensures
            r == self.visible_count(),
    {
        proof {
            self.view.lemma_wf(self.buf);
        }
        self.view.composite().len()
    }

    /// Shows afresh after the filters changed: recolours the rows where the
    /// view shows every line and still should, else shows the lines the
    /// filters now compose.
    pub fn invalidate_cache(&mut self)
        requires
            old(self).wf(),
        ensures
            final(self).wf(),
            final(self).buffer() == old(self).buffer(),
            final(self).compositor_spec() == old(self).compositor_spec(),
            final(self).cursor_spec() == old(self).cursor_spec(),
            final(self).name_spec() == old(self).name_spec(),
            final(self).view_spec().follows() == old(self).view_spec().follows(),
            final(self).view_spec().end() == old(self).view_spec().end(),
            refreshed(old(self).view_spec(), old(self).compositor_spec(), final(self).view_spec()),
    {
        proof {
            self.view.lemma_wf(self.buf);
            self.compositor.lemma_wf();
            self.compositor.spec_filters().lemma_builtins();
        }
        let prev_all = self.view.composite().is_all();
        let now_all = !self.compositor.needs_composite();
        if prev_all && now_all {
            self.view.reset_color_cache();
        } else {
            let composite = self.compositor.create_composite();
            self.view.insert_new_line_set(composite);
            proof {
                lemma_composite_within(self.compositor, composite.lines(), self.buf);
            }
        }
    }

    /// Makes the view keep to the end of the lines, or stop doing so.
    pub fn set_follow_output(&mut self, follow_output: bool)
        requires
            old(self).wf(),
        ensures
            final(self).wf(),
            final(self).view_spec().follows() == follow_output,
            final(self).view_spec().view() == old(self).view_spec().view(),
            final(self).view_spec().rows() == old(self).view_spec().rows(),
            final(self).view_spec().lines_shown() == old(self).view_spec().lines_shown(),
            final(self).buffer() == old(self).buffer(),
            final(self).compositor_spec() == old(self).compositor_spec(),
            final(self).cursor_spec() == old(self).cursor_spec(),
    {
        self.view.set_follow_output(follow_output);
    }

    /// The viewport over the rows, to change in place.
    pub fn viewport_mut(&mut self) -> (r: &mut Viewport)
        ensures
            *r == old(self).view_spec().view(),
            final(self).view_spec().view() == *final(r),
            final(self).view_spec().lines_shown() == old(self).view_spec().lines_shown(),
            final(self).view_spec().rows() == old(self).view_spec().rows(),
            final(self).view_spec().prev_view() == old(self).view_spec().prev_view(),
            final(self).view_spec().follows() == old(self).view_spec().follows(),
            final(self).view_spec().end() == old(self).view_spec().end(),
            final(self).buffer() == old(self).buffer(),
            final(self).compositor_spec() == old(self).compositor_spec(),
            final(self).cursor_spec() == old(self).cursor_spec(),
            old(self).wf() ==> final(self).wf(),
    {
        self.view.viewport_mut()
    }

    /// The filters, to change in place.
    pub fn compositor_mut(&mut self) -> (r: &mut Compositor<String, Color>)
        ensures
            *r == old(self).compositor_spec(),
            final(self).compositor_spec() == *final(r),
            final(self).view_spec() == old(self).view_spec(),
            final(self).buffer() == old(self).buffer(),
            final(self).cursor_spec() == old(self).cursor_spec(),
    {
        &mut self.compositor
    }

    /// The filters.
    pub fn compositor(&self) -> (r: &Compositor<String, Color>)
        ensures
            *r == self.compositor_spec(),
    {
        &self.compositor
    }

    /// The cursor over the rows.
    pub fn cursor(&self) -> (r: Cursor)
        ensures
            r == self.cursor_spec(),
    {
        self.cursor.state()
    }

    /// The position of the nearest line at or before `line_number` that the
    /// view shows.
    pub fn nearest_index(&self, line_number: usize) -> (r: Option<usize>)
        requires
            self.wf(),
        ensures
            ({
                let set = self.view_spec().lines_shown();
                let lines = set.lines();
                let near = if set is All {
                    if line_number > 0 {
                        Some((line_number - 1) as usize)
                    } else {
                        None::<usize>
                    }
                } else {
                    crate::lineset::backward_pick(lines, line_number)
                };
                &&& near is None ==> r is None
                &&& near matches Some(x) ==> (r matches Some(i) ==> i < lines.len() && lines[i as int] == x)
                &&& near matches Some(x) ==> (r is None <==> !lines.contains(x))
            }),
    {
        proof {
            self.view.lemma_wf(self.buf);
        }
        let composite = self.view.composite();
        match composite.nearest_backward(line_number) {
            Some(ln) => composite.find(ln),
            None => None,
        }
    }

    /// Turns the filter at `filter_index` on or off and shows afresh.
    pub fn toggle_filter(&mut self, filter_index: usize)
        requires
            old(self).wf(),
        ensures
            final(self).wf(),
            final(self).buffer() == old(self).buffer(),
            final(self).cursor_spec() == old(self).cursor_spec(),
            final(self).compositor_spec().spec_strategy() == old(self).compositor_spec().spec_strategy(),
            final(self).compositor_spec().spec_filters().list().len() == old(self).compositor_spec().spec_filters().list().len(),
            forall|k: int|
                0 <= k < old(self).compositor_spec().spec_filters().list().len() ==> {
                    &&& (#[trigger] final(self).compositor_spec().spec_filters().list()[k]).spec_enabled() == (if k == filter_index {
                        !old(self).compositor_spec().spec_filters().list()[k].spec_enabled()
                    } else {
                        old(self).compositor_spec().spec_filters().list()[k].spec_enabled()
                    })
                    &&& final(self).compositor_spec().spec_filters().list()[k].spec_data() == old(self).compositor_spec().spec_filters().list()[k].spec_data()
                },
            refreshed(old(self).view_spec(), final(self).compositor_spec(), final(self).view_spec()),
    {
        self.compositor.toggle_filter(filter_index);
        proof {
            self.lemma_same_data(*old(self));
        }
        self.invalidate_cache();
    }

    /// A compositor whose filters keep the data of those of a well-formed
    /// instance's keeps the instance well formed.
    proof fn lemma_same_data(&self, before: Instance)
        requires
            before.wf(),
            self.buf == before.buf,
            self.view == before.view,
            self.compositor.wf(),
            self.compositor.spec_all() == before.compositor.spec_all(),
            self.compositor.spec_filters().list().len() == before.compositor.spec_filters().list().len(),
            forall|k: int|
                0 <= k < before.compositor.spec_filters().list().len() ==> (#[trigger] self.compositor.spec_filters().list()[k]).spec_data()
                    == before.compositor.spec_filters().list()[k].spec_data(),
        ensures
            self.wf(),
    {
        let fs = self.compositor.spec_filters().list();
        let gs = before.compositor.spec_filters().list();
        assert forall|k: int| 0 <= k < fs.len() implies match data_lines((#[trigger] fs[k]).spec_data()) {
            Some(ls) => lines_within(ls, self.buf),
            None => true,
        } by {
            assert(fs[k].spec_data() == gs[k].spec_data());
            assert(match data_lines(gs[k].spec_data()) {
                Some(ls) => lines_within(ls, before.buf),
                None => true,
            });
        }
    }

    /// Sets how the filters are composed and shows afresh.
    pub fn set_composite_strategy(&mut self, strategy: CompositeStrategy)
        requires
            old(self).wf(),
        ensures
            final(self).wf(),
            final(self).buffer() == old(self).buffer(),
            final(self).cursor_spec() == old(self).cursor_spec(),
            final(self).compositor_spec().spec_strategy() == strategy,
            final(self).compositor_spec().spec_filters() == old(self).compositor_spec().spec_filters(),
            refreshed(old(self).view_spec(), final(self).compositor_spec(), final(self).view_spec()),
    {
        self.compositor.set_strategy(strategy);
        proof {
            self.lemma_same_data(*old(self));
        }
        self.invalidate_cache();
    }

    /// Turns on or off each filter under the filter list's cursor and shows
    /// afresh.
    pub fn toggle_select_filters(&mut self)
        requires
            old(self).wf(),
        ensures
            final(self).wf(),
            final(self).buffer() == old(self).buffer(),
            final(self).cursor_spec() == old(self).cursor_spec(),
            final(self).compositor_spec().spec_filters().list().len() == old(self).compositor_spec().spec_filters().list().len(),
            forall|k: int|
                0 <= k < old(self).compositor_spec().spec_filters().list().len() ==> {
                    &&& (#[trigger] final(self).compositor_spec().spec_filters().list()[k]).spec_enabled() == (if under_cursor(old(self).compositor_spec().spec_cursor(), k) {
                        !old(self).compositor_spec().spec_filters().list()[k].spec_enabled()
                    } else {
                        old(self).compositor_spec().spec_filters().list()[k].spec_enabled()
                    })
                    &&& final(self).compositor_spec().spec_filters().list()[k].spec_data() == old(self).compositor_spec().spec_filters().list()[k].spec_data()
                },
            refreshed(old(self).view_spec(), final(self).compositor_spec(), final(self).view_spec()),
    {
        self.compositor.toggle_select_filters();
        proof {
            self.lemma_same_data(*old(self));
        }
        self.invalidate_cache();
    }

    /// Removes the added filters under the filter list's cursor and shows
    /// afresh.
    pub fn remove_select_filter(&mut self)
        requires
            old(self).wf(),
            removal_ok(
                old(self).compositor_spec().spec_filters().user_list().len() as int,
                old(self).compositor_spec().spec_cursor(),
            ),
        ensures
            final(self).wf(),
            final(self).buffer() == old(self).buffer(),
            final(self).cursor_spec() == old(self).cursor_spec(),
            final(self).compositor_spec().spec_filters().user_list() == removed_under(
                old(self).compositor_spec().spec_filters().user_list(),
                old(self).compositor_spec().spec_cursor(),
            ),
            final(self).compositor_spec().spec_filters().bookmark_lines() == old(self).compositor_spec().spec_filters().bookmark_lines(),
            refreshed(old(self).view_spec(), final(self).compositor_spec(), final(self).view_spec()),
    {
        let ghost before = self.compositor;
        self.compositor.remove_select_filters();
        proof {
            let c0 = before;
            let c1 = self.compositor;
            c0.lemma_wf();
            c1.lemma_wf();
            c0.spec_filters().lemma_builtins();
            c1.spec_filters().lemma_builtins();
            let u0 = c0.spec_filters().user_list();
            let u1 = c1.spec_filters().user_list();
            lemma_removed_from(u0, c0.spec_cursor());
            let fs = c1.spec_filters().list();
            let gs = c0.spec_filters().list();
            assert forall|k: int| 0 <= k < fs.len() implies match data_lines((#[trigger] fs[k]).spec_data()) {
                Some(ls) => lines_within(ls, self.buf),
                None => true,
            } by {
                if k >= 2 {
                    assert(fs[k] == u1[k - 2]);
                    assert(u0.contains(u1[k - 2]));
                    let i = choose|i: int| 0 <= i < u0.len() && u0[i] == u1[k - 2];
                    assert(gs[i + 2] == u0[i]);
                    assert(match data_lines(gs[i + 2].spec_data()) {
                        Some(ls) => lines_within(ls, self.buf),
                        None => true,
                    });
                }
            }
        }
        self.invalidate_cache();
    }

    /// Brings the cursor into the viewport: onto its top row when above it,
    /// onto its last row when below.
    pub fn move_selected_into_view(&mut self)
        requires
            old(self).view_spec().view()@.0 + old(self).view_spec().view()@.2 <= usize::MAX,
        ensures
            final(self).buffer() == old(self).buffer(),
            final(self).compositor_spec() == old(self).compositor_spec(),
            final(self).view_spec() == old(self).view_spec(),
            ({
                let v = old(self).view_spec().view()@;
                let current = focus(old(self).cursor_spec());
                final(self).cursor_spec() == (if current < v.0 {
                    Cursor::Singleton(v.0)
                } else if current >= v.0 + v.2 {
                    Cursor::Singleton(sat_sub(v.0 + v.2, 1) as usize)
                } else {
                    old(self).cursor_spec()
                })
            }),
    {
        let current = match self.cursor.state() {
            Cursor::Singleton(i) => i,
            Cursor::Selection(i, _, SelectionOrigin::Left) => i,
            Cursor::Selection(_, i, SelectionOrigin::Right) => i,
        };
        let top = self.view.viewport().top();
        let bottom = self.view.viewport().bottom();
        if current < top {
            self.cursor.place(top);
        } else if current >= bottom {
            self.cursor.place(bottom.saturating_sub(1));
        }
    }

    /// Bookmarks line `line_number` or removes its bookmark, keeps the
    /// cursor on the rows, and shows afresh where no enabled filter matches
    /// the line any more, else recolours.
    pub fn toggle_bookmark_line_number(&mut self, line_number: usize)
        requires
            old(self).wf(),
            line_number <= old(self).buffer().line_total(),
        ensures
            final(self).wf(),
            final(self).buffer() == old(self).buffer(),
            toggled(
                old(self).compositor_spec().spec_filters().bookmark_lines(),
                final(self).compositor_spec().spec_filters().bookmark_lines(),
                line_number,
            ),
            final(self).compositor_spec().spec_filters().user_list() == old(self).compositor_spec().spec_filters().user_list(),
            final(self).compositor_spec().spec_strategy() == old(self).compositor_spec().spec_strategy(),
            final(self).cursor_spec() == clamp_spec(
                old(self).cursor_spec(),
                sat_sub(old(self).visible_count() as int, 1) as usize,
            ),
            final(self).view_spec().end() == old(self).visible_count(),
            none_active_has(final(self).compositor_spec().spec_filters().list(), line_number) ==> refreshed(
                old(self).view_spec(),
                final(self).compositor_spec(),
                final(self).view_spec(),
            ),
            !none_active_has(final(self).compositor_spec().spec_filters().list(), line_number) ==> {
                &&& final(self).view_spec().lines_shown() == old(self).view_spec().lines_shown()
                &&& final(self).view_spec().recolor_pending()
                &&& final(self).view_spec().view() == old(self).view_spec().view()
            },
    {
        let ghost before = self.compositor;
        self.compositor.toggle_bookmark(line_number);
        proof {
            lemma_bookmarks_within(before, self.compositor, self.buf);
            self.view.lemma_wf(self.buf);
        }
        let count = self.view.composite().len();
        self.cursor.clamp(count.saturating_sub(1));
        self.view.set_end_index(count);
        proof {
            self.compositor.lemma_wf();
        }
        if no_active_filter_has(self.compositor.filters(), line_number) {
            self.invalidate_cache();
        } else {
            self.view.reset_color_cache();
        }
    }

    /// Bookmarks the lines under the cursor, or removes their bookmarks
    /// where they all have one, keeps the cursor on the rows, and shows
    /// afresh or recolours: a single line as `toggle_bookmark_line_number`
    /// does; a selection shows afresh unless an enabled filter matched its
    /// last line before the change.
    pub fn toggle_select_bookmarks(&mut self)
        requires
            old(self).wf(),
            cursor_in_rows(old(self).cursor_spec(), old(self).view_spec().lines_shown().lines().len()),
        ensures
            final(self).wf(),
            final(self).buffer() == old(self).buffer(),
            final(self).compositor_spec().spec_filters().user_list() == old(self).compositor_spec().spec_filters().user_list(),
            final(self).compositor_spec().spec_strategy() == old(self).compositor_spec().spec_strategy(),
            select_toggled(
                old(self).compositor_spec().spec_filters().bookmark_lines(),
                final(self).compositor_spec().spec_filters().bookmark_lines(),
                select_lines(old(self).cursor_spec(), old(self).view_spec().lines_shown().lines()),
            ),
            final(self).cursor_spec() == clamp_spec(
                old(self).cursor_spec(),
                sat_sub(old(self).visible_count() as int, 1) as usize,
            ),
            final(self).view_spec().end() == old(self).visible_count(),
            ({
                let lines = select_lines(old(self).cursor_spec(), old(self).view_spec().lines_shown().lines());
                let refresh = match old(self).cursor_spec() {
                    Cursor::Singleton(_) => none_active_has(
                        final(self).compositor_spec().spec_filters().list(),
                        lines[0],
                    ),
                    Cursor::Selection(..) => lines.len() == 0 || none_active_has(
                        old(self).compositor_spec().spec_filters().list(),
                        lines.last(),
                    ),
                };
                &&& refresh ==> refreshed(old(self).view_spec(), final(self).compositor_spec(), final(self).view_spec())
                &&& !refresh ==> {
                    &&& final(self).view_spec().lines_shown() == old(self).view_spec().lines_shown()
                    &&& final(self).view_spec().recolor_pending()
                    &&& final(self).view_spec().view() == old(self).view_spec().view()
                }
            }),
    {
        proof {
            self.view.lemma_wf(self.buf);
            self.view.lines_shown().lemma_lines_sorted();
        }
        let ghost rows = self.view.lines_shown().lines();
        let (start, end) = match self.cursor.state() {
            Cursor::Singleton(i) => {
                let line_number = self.view.line_at_view_index(i).unwrap();
                proof {
                    assert(rows[i as int] <= self.buf.line_total());
                }
                let ghost before = self.compositor.spec_filters().bookmark_lines();
                self.toggle_bookmark_line_number(line_number);
                proof {
                    let after = self.compositor.spec_filters().bookmark_lines();
                    let lines = seq![line_number];
                    let present = forall|j: int| 0 <= j < lines.len() ==> before.contains(#[trigger] lines[j]);
                    assert(present == before.contains(line_number)) by {
                        if before.contains(line_number) {
                            assert forall|j: int| 0 <= j < lines.len() implies before.contains(#[trigger] lines[j]) by {}
                        } else {
                            assert(lines[0] == line_number);
                        }
                    }
                    assert forall|x: usize| #[trigger] after.contains(x) <==> (if present {
                        before.contains(x) && !lines.contains(x)
                    } else {
                        before.contains(x) || lines.contains(x)
                    }) by {
                        if lines.contains(x) {
                            let j = choose|j: int| 0 <= j < lines.len() && lines[j] == x;
                            assert(x == line_number);
                        }
                        if x == line_number {
                            assert(lines[0] == x);
                        }
                    }
                }
                return;
            },
            Cursor::Selection(start, end, _) => (start, end),
        };
        let ghost lines = select_lines(self.cursor.state, rows);
        let mut line_numbers: Vec<usize> = Vec::new();
        if start <= end {
            let mut i = start;
            while i <= end
                invariant
                    start <= i <= end + 1,
                    end < rows.len() <= usize::MAX,
                    self.view.lines_shown().wf(),
                    rows == self.view.lines_shown().lines(),
                    line_numbers@ == rows.subrange(start as int, i as int),
                decreases end + 1 - i,
            {
                let ln = self.view.line_at_view_index(i).unwrap();
                line_numbers.push(ln);
                proof {
                    assert(line_numbers@ =~= rows.subrange(start as int, i + 1));
                }
                i = i + 1;
            }
        }
        proof {
            assert(line_numbers@ =~= lines);
        }
        let n = line_numbers.len();
        proof {
            self.compositor.lemma_wf();
        }
        let mut present = true;
        let mut k: usize = 0;
        let ghost bm0 = self.compositor.spec_filters().bookmark_lines();
        while k < n
            invariant
                k <= n == lines.len(),
                line_numbers@ == lines,
                self.compositor.wf(),
                bm0 == self.compositor.spec_filters().bookmark_lines(),
                present == (forall|j: int| 0 <= j < k ==> bm0.contains(#[trigger] lines[j])),
            decreases n - k,
        {
            proof {
                self.compositor.lemma_wf();
            }
            if !self.compositor.filters().bookmarks().has_line(line_numbers[k]) {
                present = false;
            }
            k = k + 1;
        }
        let ghost c0 = self.compositor;
        let ghost fs0 = c0.spec_filters().list();
        let mut needs_invalidation = true;
        let mut j: usize = 0;
        proof {
            assert forall|x: usize| #[trigger] bm0.contains(x) <==> (if present {
                bm0.contains(x) && !lines.take(0).contains(x)
            } else {
                bm0.contains(x) || lines.take(0).contains(x)
            }) by {}
        }
        while j < n
            invariant
                j <= n == lines.len(),
                line_numbers@ == lines,
                c0.wf(),
                self.compositor.wf(),
                self.buf.wf(),
                filters_within(c0.spec_filters().list(), self.buf),
                filters_within(self.compositor.spec_filters().list(), self.buf),
                self.compositor.spec_filters().user_list() == c0.spec_filters().user_list(),
                self.compositor.spec_all() == c0.spec_all(),
                self.compositor.spec_strategy() == c0.spec_strategy(),
                self.compositor.spec_cursor() == c0.spec_cursor(),
                self.compositor.spec_filters().list().len() == fs0.len(),
                self.compositor.spec_filters().list()[0] == fs0[0],
                self.compositor.spec_filters().list()[1].spec_enabled() == fs0[1].spec_enabled(),
                fs0 == c0.spec_filters().list(),
                bm0 == c0.spec_filters().bookmark_lines(),
                crate::node::sorted_strict(lines),
                forall|q: int| 0 <= q < lines.len() ==> #[trigger] lines[q] <= self.buf.line_total(),
                forall|x: usize|
                    #[trigger] self.compositor.spec_filters().bookmark_lines().contains(x) <==> (if present {
                        bm0.contains(x) && !lines.take(j as int).contains(x)
                    } else {
                        bm0.contains(x) || lines.take(j as int).contains(x)
                    }),
                j == 0 ==> needs_invalidation,
                j > 0 ==> needs_invalidation == none_active_has(fs0, lines[j - 1]),
                self.view == old(self).view,
                self.buf == old(self).buf,
                self.cursor == old(self).cursor,
            decreases n - j,
        {
            let ln = line_numbers[j];
            let ghost cj = self.compositor;
            proof {
                cj.lemma_wf();
                cj.spec_filters().lemma_builtins();
                c0.lemma_wf();
                c0.spec_filters().lemma_builtins();
            }
            needs_invalidation = no_active_filter_has(self.compositor.filters(), ln);
            proof {
                let fsj = cj.spec_filters().list();
                let bmj = cj.spec_filters().bookmark_lines();
                assert(!lines.take(j as int).contains(ln)) by {
                    if lines.take(j as int).contains(ln) {
                        let q = choose|q: int| 0 <= q < j && lines.take(j as int)[q] == ln;
                        assert(lines[q] == lines[j as int]);
                    }
                }
                assert(bmj.contains(ln) == bm0.contains(ln));
                assert forall|k: int| 0 <= k < fsj.len() implies (#[trigger] fsj[k]).spec_enabled() == fs0[k].spec_enabled()
                    && (matches_line(fsj[k], ln) == matches_line(fs0[k], ln)) by {
                    if k >= 2 {
                        assert(fsj[k] == fs0[k]);
                    }
                }
                assert(none_active_has(fsj, ln) == none_active_has(fs0, ln)) by {
                    if none_active_has(fs0, ln) {
                        assert forall|k: int| 0 <= k < fsj.len() implies !((#[trigger] fsj[k]).spec_enabled() && matches_line(fsj[k], ln)) by {
                            assert(!(fs0[k].spec_enabled() && matches_line(fs0[k], ln)));
                        }
                    } else {
                        let k = choose|k: int| 0 <= k < fs0.len() && (#[trigger] fs0[k]).spec_enabled() && matches_line(fs0[k], ln);
                        assert(fsj[k].spec_enabled() && matches_line(fsj[k], ln));
                    }
                }
            }
            {
                let filters = self.compositor.filters_mut();
                if present {
                    filters.remove_bookmark(ln);
                } else {
                    filters.add_bookmark(ln);
                }
            }
            proof {
                let bmj = cj.spec_filters().bookmark_lines();
                let bm1 = self.compositor.spec_filters().bookmark_lines();
                let t0 = lines.take(j as int);
                let t1 = lines.take(j + 1);
                assert forall|x: usize| #[trigger] t1.contains(x) <==> (t0.contains(x) || x == ln) by {
                    if t1.contains(x) {
                        let q = choose|q: int| 0 <= q < t1.len() && t1[q] == x;
                        if q < j {
                            assert(t0[q] == x);
                        }
                    }
                    if t0.contains(x) {
                        let q = choose|q: int| 0 <= q < t0.len() && t0[q] == x;
                        assert(t1[q] == x);
                    }
                    if x == ln {
                        assert(t1[j as int] == x);
                    }
                }
                assert forall|x: usize| #[trigger] bm1.contains(x) <==> (if present {
                    bm0.contains(x) && !t1.contains(x)
                } else {
                    bm0.contains(x) || t1.contains(x)
                }) by {
                    assert(bmj.contains(x) <==> (if present {
                        bm0.contains(x) && !t0.contains(x)
                    } else {
                        bm0.contains(x) || t0.contains(x)
                    }));
                }
                assert forall|x: usize| #[trigger] bm1.contains(x) implies bmj.contains(x) || x <= self.buf.line_total() by {
                    if x == ln {
                        assert(lines[j as int] <= self.buf.line_total());
                    }
                }
                lemma_bookmarks_within(cj, self.compositor, self.buf);
            }
            j = j + 1;
        }
        proof {
            assert(lines.take(n as int) =~= lines);
            self.view.lemma_wf(self.buf);
        }
        let count = self.view.composite().len();
        self.cursor.clamp(count.saturating_sub(1));
        self.view.set_end_index(count);
        if needs_invalidation {
            self.invalidate_cache();
        } else {
            self.view.reset_color_cache();
        }
    }

    /// Moves the cursor over the rows by `delta` in direction `dir`,
    /// selecting when `select` is set, keeps it on the rows, and brings its
    /// moving end into view.
    pub fn move_select(&mut self, dir: Direction, select: bool, delta: ViewDelta)
        requires
            old(self).wf(),
            old(self).view_spec().view()@.0 + old(self).view_spec().view()@.2 <= usize::MAX,
            delta is Match && dir == Direction::Next && !old(self).compositor_spec().spec_filters().list()[0].spec_enabled()
                ==> move_pos(old(self).cursor_spec(), select) < usize::MAX,
        ensures
            final(self).wf(),
            final(self).buffer() == old(self).buffer(),
            final(self).compositor_spec() == old(self).compositor_spec(),
            final(self).view_spec().lines_shown() == old(self).view_spec().lines_shown(),
            final(self).view_spec().rows() == old(self).view_spec().rows(),
            ({
                let c = old(self).cursor_spec();
                let v = old(self).view_spec().view()@;
                let a = move_pos(c, select);
                let d = step_of(old(self).compositor_spec(), v.2, delta, dir, a as usize);
                let moved = match dir {
                    Direction::Back => back_spec(c, select, sat_sub(a, d as int) as usize),
                    Direction::Next => forward_spec(c, select, sat_add(a, d as int) as usize),
                };
                let clamped = clamp_spec(moved, sat_sub(old(self).visible_count() as int, 1) as usize);
                &&& final(self).cursor_spec() == clamped
                &&& final(self).view_spec().view()@ == (
                    jump_top(v.0 as int, v.2 as int, focus(clamped) as int) as usize,
                    v.1,
                    v.2,
                    v.3,
                )
            }),
    {
        let height = self.view.viewport().height();
        let fixed: usize = match delta {
            ViewDelta::Number(n) => n as usize,
            ViewDelta::Page => height,
            ViewDelta::HalfPage => height / 2 + height % 2,
            ViewDelta::Boundary => usize::MAX,
            ViewDelta::Match => 0,
        };
        let ghost c = self.cursor.state;
        let ghost comp0 = self.compositor;
        proof {
            comp0.lemma_wf();
            comp0.spec_filters().lemma_builtins();
        }
        let compositor = &self.compositor;
        let cursor = &mut self.cursor;
        match dir {
            Direction::Back => {
                let f = |i: usize| -> (r: usize)
                    requires
                        compositor.wf(),
                    ensures
                        r == sat_sub(i as int, step_of(*compositor, height, delta, dir, i) as int),
                    {
                        let d = if matches!(delta, ViewDelta::Match) {
                            let target = match compositor.compute_jump(i, dir) {
                                Some(t) => t,
                                None => i,
                            };
                            if target >= i { target - i } else { i - target }
                        } else {
                            fixed
                        };
                        i.saturating_sub(d)
                    };
                cursor.back(select, f);
                proof {
                    if back_arg(c, select) is Some {
                        let a = back_arg(c, select)->0;
                        let out = choose|out: usize|
                            #[trigger] call_ensures(f, (a,), out) && cursor.state == back_spec(c, select, out);
                        assert(out == sat_sub(a as int, step_of(comp0, height, delta, dir, a) as int));
                    }
                }
            },
            Direction::Next => {
                let f = |i: usize| -> (r: usize)
                    requires
                        compositor.wf(),
                        delta is Match && !compositor.spec_filters().list()[0].spec_enabled() ==> i < usize::MAX,
                    ensures
                        r == sat_add(i as int, step_of(*compositor, height, delta, dir, i) as int),
                    {
                        let d = if matches!(delta, ViewDelta::Match) {
                            let target = match compositor.compute_jump(i, dir) {
                                Some(t) => t,
                                None => i,
                            };
                            if target >= i { target - i } else { i - target }
                        } else {
                            fixed
                        };
                        i.saturating_add(d)
                    };
                cursor.forward(select, f);
                proof {
                    if back_arg(c, select) is Some {
                        let a = back_arg(c, select)->0;
                        let out = choose|out: usize|
                            #[trigger] call_ensures(f, (a,), out) && cursor.state == forward_spec(c, select, out);
                        assert(out == sat_add(a as int, step_of(comp0, height, delta, dir, a) as int));
                    }
                }
            },
        }
        proof {
            self.view.lemma_wf(self.buf);
        }
        let count = self.view.composite().len();
        self.cursor.clamp(count.saturating_sub(1));
        let i = match self.cursor.state() {
            Cursor::Singleton(i) => i,
            Cursor::Selection(i, _, SelectionOrigin::Left) => i,
            Cursor::Selection(_, i, SelectionOrigin::Right) => i,
        };
        self.view.viewport_mut().jump_to(i);
    }

    /// Fits the viewport to `viewport_height` rows of `viewport_width`
    /// columns, reads and colours the rows it shows, and returns them as
    /// shown, with the line of the last.
    pub fn update_and_view(&mut self, viewport_height: usize, viewport_width: usize) -> (r: (
        Vec<LineData>,
        Option<usize>,
    ))
        requires
            old(self).wf(),
            old(self).visible_count() <= usize::MAX / 2,
            old(self).view_spec().follows() ==> old(self).view_spec().view()@.0 + viewport_height
                <= usize::MAX,
        ensures
            final(self).wf(),
            final(self).buffer() == old(self).buffer(),
            final(self).compositor_spec() == old(self).compositor_spec(),
            final(self).cursor_spec() == old(self).cursor_spec(),
            final(self).view_spec().lines_shown() == old(self).view_spec().lines_shown(),
            final(self).view_spec().end() == old(self).visible_count(),
            final(self).view_spec().view()@ == settled_view(
                (old(self).view_spec().view()@.0, old(self).view_spec().view()@.1, viewport_height, viewport_width),
                old(self).view_spec().follows(),
                old(self).visible_count() as usize,
            ),
            ({
                let rows = final(self).view_spec().rows();
                let lines = final(self).view_spec().lines_shown().lines();
                let v = final(self).view_spec().view()@;
                &&& rows_fit(rows, v.0 as int, lines, final(self).buffer())
                &&& rows.len() <= v.2
                &&& rows.len() < v.2 ==> ({
                    let next = v.0 + rows.len();
                    next >= lines.len() || !final(self).buffer().line_readable(lines[next] as int)
                })
                &&& forall|j: int|
                    0 <= j < rows.len() ==> {
                        let before = old(self).view_spec().rows();
                        let ot = old(self).view_spec().prev_view()@.0 as int;
                        let meet = crate::viewer::views_meet(
                            ot,
                            ot + old(self).view_spec().prev_view()@.2,
                            v.0 as int,
                            v.0 + v.2,
                        );
                        let index = (#[trigger] rows[j]).index as int;
                        if !old(self).view_spec().recolor_pending() && meet && ot <= index < ot + before.len()
                            && before[index - ot].color != Color::Reset {
                            rows[j] == before[index - ot]
                        } else {
                            fresh_row(rows[j], final(self).compositor_spec())
                        }
                    }
                &&& r.0@.len() == rows.len()
                &&& forall|j: int|
                    0 <= j < rows.len() ==> {
                        let d = #[trigger] r.0@[j];
                        &&& d.line_number == rows[j].line_number
                        &&& d.data@ == rows[j].data@
                        &&& d.start == v.1
                        &&& d.color == rows[j].color
                        &&& d.ty == line_type(final(self).cursor_spec(), rows[j].index, rows[j].bookmarked)
                    }
                &&& r.1 == (if rows.len() > 0 {
                    Some(rows.last().line_number)
                } else {
                    None::<usize>
                })
            }),
    {
        proof {
            self.view.lemma_wf(self.buf);
        }
        self.view.viewport_mut().fit_view(viewport_height, viewport_width);
        let count = self.view.composite().len();
        self.view.set_end_index(count);
        let left = self.view.viewport().left();
        let state = self.cursor.state();
        let ghost old_rows = self.view.rows();
        let last = self.view.cache_view(&self.buf);
        let ghost mid_rows = self.view.rows();
        self.view.color_cache(&self.compositor);
        let rows = self.view.cached_rows();
        let n = rows.len();
        let mut out: Vec<LineData> = Vec::new();
        let mut j: usize = 0;
        while j < n
            invariant
                j <= n == rows@.len(),
                out@.len() == j,
                forall|q: int|
                    0 <= q < j ==> {
                        let d = #[trigger] out@[q];
                        &&& d.line_number == rows@[q].line_number
                        &&& d.data@ == rows@[q].data@
                        &&& d.start == left
                        &&& d.color == rows@[q].color
                        &&& d.ty == line_type(state, rows@[q].index, rows@[q].bookmarked)
                    },
            decreases n - j,
        {
            let row = &rows[j];
            out.push(
                LineData {
                    line_number: row.line_number,
                    data: row.data.clone(),
                    start: left,
                    color: row.color,
                    ty: line_type_of(state, row.index, row.bookmarked),
                },
            );
            j = j + 1;
        }
        proof {
            let fin = self.view.rows();
            let v = self.view.view()@;
            let ot = old(self).view.prev_view()@.0 as int;
            let meet = crate::viewer::views_meet(ot, ot + old(self).view.prev_view()@.2, v.0 as int, v.0 + v.2);
            assert forall|q: int| 0 <= q < fin.len() implies {
                let index = (#[trigger] fin[q]).index as int;
                if !old(self).view.recolor_pending() && meet && ot <= index < ot + old_rows.len()
                    && old_rows[index - ot].color != Color::Reset {
                    fin[q] == old_rows[index - ot]
                } else {
                    fresh_row(fin[q], self.compositor)
                }
            } by {
                assert(fin[q].index == mid_rows[q].index);
            }
        }
        (out, last)
    }

    /// Adds a filter of the lines where `pattern` matches, as a regular
    /// expression or, when `literal` is set, as plain text, in the next
    /// colour of `colors`, and shows afresh.
    pub fn add_search_filter(&mut self, pattern: &str, literal: bool, colors: &mut ColorSelector) -> (r: Result<(), SearchError>)
        requires
            old(self).wf(),
            old(colors).wf(),
            old(self).compositor_spec().spec_filters().list().len() < usize::MAX,
        ensures
            final(colors).wf(),
            final(self).wf(),
            final(self).buffer() == old(self).buffer(),
            final(self).cursor_spec() == old(self).cursor_spec(),
            ({
                let text = if literal {
                    regex_escaped(pattern@)
                } else {
                    pattern@
                };
                let found = search_spec(text, old(self).buffer().contents(), old(self).buffer().offsets(), 0);
                &&& !regex_compiles(text) ==> r == Err::<(), SearchError>(SearchError::Invalid)
                    && *final(colors) == *old(colors) && *final(self) == *old(self)
                &&& regex_compiles(text) ==> *final(colors) == old(colors).stepped()
                &&& regex_compiles(text) && found is None ==> r == Err::<(), SearchError>(SearchError::OffLine)
                    && *final(self) == *old(self)
                &&& regex_compiles(text) && found is Some ==> {
                    let fs0 = old(self).compositor_spec().spec_filters().list();
                    let fs1 = final(self).compositor_spec().spec_filters().list();
                    &&& r is Ok
                    &&& fs1.len() == fs0.len() + 1
                    &&& forall|k: int| 0 <= k < fs0.len() ==> #[trigger] fs1[k] == fs0[k]
                    &&& fs1.last().spec_enabled()
                    &&& fs1.last().spec_mask()@ == text
                    &&& fs1.last().spec_color() == old(colors).color_of()
                    &&& fs1.last().spec_data() matches FilterData::Search(set) && set.completed()
                        && Some(set.lines()) == found
                    &&& final(self).compositor_spec().spec_strategy() == old(self).compositor_spec().spec_strategy()
                    &&& refreshed(old(self).view_spec(), final(self).compositor_spec(), final(self).view_spec())
                }
            }),
    {
        let ghost before = self.compositor;
        proof {
            before.lemma_wf();
            before.spec_filters().lemma_builtins();
        }
        let r = self.compositor.add_search_filter(&self.buf, pattern, literal, colors);
        if r.is_err() {
            return r;
        }
        proof {
            let text = if literal {
                regex_escaped(pattern@)
            } else {
                pattern@
            };
            lemma_search_lines(text, self.buf.contents(), self.buf.offsets(), 0);
            let found = search_spec(text, self.buf.contents(), self.buf.offsets(), 0);
            let fs = self.compositor.spec_filters().list();
            let gs = before.spec_filters().list();
            assert forall|k: int| 0 <= k < fs.len() implies match data_lines((#[trigger] fs[k]).spec_data()) {
                Some(ls) => lines_within(ls, self.buf),
                None => true,
            } by {
                if k < gs.len() {
                    assert(fs[k] == gs[k]);
                } else {
                    let set = fs.last().spec_data()->Search_0;
                    assert(fs[k] == fs.last());
                    assert forall|j: int| 0 <= j < set.lines().len() implies #[trigger] set.lines()[j] <= self.buf.line_total() by {
                        assert(found->0 == set.lines());
                        assert(found->0[j] + 1 < self.buf.offsets().len());
                    }
                }
            }
        }
        self.invalidate_cache();
        Ok(())
    }

    /// The bytes of the lines the view shows, to write out: the whole data
    /// when it shows every line; an error while the set is unfinished.
    pub fn export_file(&self) -> (r: Result<Vec<u8>, Error>)
        requires
            self.wf(),
            self.view_spec().lines_shown() is Subset ==> forall|j: int|
                0 <= j < self.view_spec().lines_shown().lines().len() ==> self.buffer().line_readable(
                    #[trigger] self.view_spec().lines_shown().lines()[j] as int,
                ),
        ensures
            !self.view_spec().lines_shown().completed() ==> r == Err::<Vec<u8>, Error>(Error::InProgress),
            self.view_spec().lines_shown().completed() && self.view_spec().lines_shown() is All ==> (r matches Ok(v)
                && v@ == self.buffer().contents()),
            self.view_spec().lines_shown().completed() && self.view_spec().lines_shown() is Subset ==> (r matches Ok(v)
                && v@ == joined_bytes(self.buffer(), self.view_spec().lines_shown().lines())),
    {
        proof {
            self.view.lemma_wf(self.buf);
        }
        self.buf.write_bytes(self.view.composite())
    }

    /// Adds the search filters that the saved filters `exports` stand for,
    /// in order, up to the first that gives an error, and shows afresh.
    pub fn import_user_filters(&mut self, exports: Vec<FilterExport<Color>>) -> (r: Result<(), SearchError>)
        requires
            old(self).wf(),
            old(self).compositor_spec().spec_filters().list().len() + exports@.len() < usize::MAX,
        ensures
            final(self).wf(),
            final(self).buffer() == old(self).buffer(),
            final(self).cursor_spec() == old(self).cursor_spec(),
            final(self).compositor_spec().spec_strategy() == old(self).compositor_spec().spec_strategy(),
            ({
                let fs0 = old(self).compositor_spec().spec_filters().list();
                let fs1 = final(self).compositor_spec().spec_filters().list();
                let m = fs1.len() - fs0.len();
                &&& 0 <= m <= exports@.len()
                &&& forall|k: int| 0 <= k < fs0.len() ==> #[trigger] fs1[k] == fs0[k]
                &&& forall|j: int|
                    0 <= j < m ==> import_error(#[trigger] exports@[j], old(self).buffer()) is None
                        && imported(fs1[fs0.len() + j], exports@[j], old(self).buffer())
                &&& r is Ok <==> m == exports@.len()
                &&& r matches Err(e) ==> import_error(exports@[m], old(self).buffer()) == Some(e)
            }),
            refreshed(old(self).view_spec(), final(self).compositor_spec(), final(self).view_spec()),
    {
        let ghost fs0 = self.compositor.spec_filters().list();
        let ghost all = exports@;
        let result = self.compositor.import_user_filters(&self.buf, exports);
        proof {
            let fs = self.compositor.spec_filters().list();
            assert forall|q: int| 0 <= q < fs.len() implies match data_lines((#[trigger] fs[q]).spec_data()) {
                Some(ls) => lines_within(ls, self.buf),
                None => true,
            } by {
                if q < fs0.len() {
                    assert(fs[q] == fs0[q]);
                } else {
                    let j = q - fs0.len();
                    assert(imported(fs[fs0.len() + j], all[j], self.buf));
                    let text = mask_text(all[j].mask);
                    lemma_search_lines(text, self.buf.contents(), self.buf.offsets(), 0);
                    let found = search_spec(text, self.buf.contents(), self.buf.offsets(), 0);
                    let set = fs[q].spec_data()->Search_0;
                    assert forall|i: int| 0 <= i < set.lines().len() implies #[trigger] set.lines()[i]
                        <= self.buf.line_total() by {
                        assert(found->0 == set.lines());
                        assert(found->0[i] + 1 < self.buf.offsets().len());
                    }
                }
            }
        }
        self.invalidate_cache();
        result
    }
}

/// Keeping a cursor within a bound brings both of its ends to the bound or
/// below, so after a move or a change of bookmarks the cursor lies on the
/// rows.
pub proof fn law_clamp_keeps_within(c: Cursor, bound: usize)
    ensures
        match clamp_spec(c, bound) {
            Cursor::Singleton(i) => i <= bound,
            Cursor::Selection(a, b, _) => a <= bound && b <= bound,
        },
        focus(clamp_spec(c, bound)) <= bound,
{
}

} // verus!
