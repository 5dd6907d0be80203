use vstd::prelude::*;

use std::collections::VecDeque;

use crate::buffer::{utf8_lossy, SegBuffer};
use crate::colors::Color;
use crate::filters::{data_lines, Compositor, Filter, FilterData, Filters};
use crate::lineset::LineSet;
use crate::viewport::{jump_top, sat_sub, Viewport, ViewportView};

verus! {

/// The text a view shows for line `ln` of `buf`: the line's text, invalid
/// UTF-8 replaced, or nothing where the buffer cannot give the line.
pub open spec fn shown_text(buf: SegBuffer, ln: usize) -> Seq<char> {
    if buf.line_readable(ln as int) {
        utf8_lossy(buf.line_bytes(ln as int))
    } else {
        Seq::empty()
    }
}

/// Whether filter `f` matches line `ln`: every line for the filter of
/// every line.
pub open spec fn matches_line<M, C>(f: Filter<M, C>, ln: usize) -> bool {
    match data_lines(f.spec_data()) {
        Some(lines) => lines.contains(ln),
        None => true,
    }
}

/// The colour of line `ln`: that of the last enabled filter of `fs` that
/// matches it, white where none does.
pub open spec fn line_color<M>(fs: Seq<Filter<M, Color>>, ln: usize) -> Color
    decreases fs.len(),
{
    if fs.len() == 0 {
        Color::White
    } else if fs.last().spec_enabled() && matches_line(fs.last(), ln) {
        fs.last().spec_color()
    } else {
        line_color(fs.drop_last(), ln)
    }
}

/// Whether the lines of filter `f` are all known.
pub open spec fn filter_complete<M, C>(f: Filter<M, C>) -> bool {
    match f.spec_data() {
        FilterData::Search(s) => s.completed(),
        _ => true,
    }
}

/// Whether some enabled filter of `fs` is still gathering lines.
pub open spec fn any_incomplete<M, C>(fs: Seq<Filter<M, C>>) -> bool {
    exists|k: int| 0 <= k < fs.len() && (#[trigger] fs[k]).spec_enabled() && !filter_complete(fs[k])
}

/// A row of the view: its position in the view's set of lines, the line it
/// shows, the line's text, and the colour and bookmark mark it is shown
/// with.
pub struct CachedLine {
    pub index: usize,
    pub line_number: usize,
    pub data: String,
    pub color: Color,
    pub bookmarked: bool,
}

/// The colour the filters `filters` give line `ln`.
pub fn color_for<M>(filters: &Filters<M, Color>, ln: usize) -> (r: Color)
    requires
        filters.wf(),
    ensures
        r == line_color(filters.list(), ln),
{
    let n = filters.len();
    let ghost fs = filters.list();
    let mut acc = Color::White;
    let mut k: usize = 0;
    proof {
        assert(fs.take(0) =~= Seq::<Filter<M, Color>>::empty());
    }
    while k < n
        invariant
            k <= n == fs.len(),
            fs == filters.list(),
            filters.wf(),
            acc == line_color(fs.take(k as int), ln),
        decreases n - k,
    {
        let f = filters.get(k).unwrap();
        proof {
            assert(fs.take(k + 1).drop_last() =~= fs.take(k as int));
            assert(fs.take(k + 1).last() == fs[k as int]);
            assert(f.wf());
        }
        if f.is_enabled() && f.has_line(ln) {
            acc = *f.color();
        }
        k = k + 1;
    }
    proof {
        assert(fs.take(n as int) =~= fs);
    }
    acc
}

/// Whether some enabled filter of `filters` is still gathering lines.
pub fn any_active_incomplete<M, C>(filters: &Filters<M, C>) -> (r: bool)
    requires
        filters.wf(),
    ensures
        r == any_incomplete(filters.list()),
{
    let n = filters.len();
    let ghost fs = filters.list();
    let mut k: usize = 0;
    while k < n
        invariant
            k <= n == fs.len(),
            fs == filters.list(),
            filters.wf(),
            forall|j: int| 0 <= j < k ==> !((#[trigger] fs[j]).spec_enabled() && !filter_complete(fs[j])),
        decreases n - k,
    {
        let f = filters.get(k).unwrap();
        if f.is_enabled() && !f.is_complete() {
            return true;
        }
        k = k + 1;
    }
    false
}

/// Rows `rows` are the rows from position `top` on of the lines `lines` of
/// `buf`, one after another.
pub open spec fn rows_fit(rows: Seq<CachedLine>, top: int, lines: Seq<usize>, buf: SegBuffer) -> bool {
    forall|j: int|
        0 <= j < rows.len() ==> {
            &&& (#[trigger] rows[j]).index == top + j
            &&& rows[j].index < lines.len()
            &&& rows[j].line_number == lines[rows[j].index as int]
            &&& rows[j].data@ == shown_text(buf, rows[j].line_number)
        }
}

/// Every line of `lines` is one `buf` can be asked for.
pub open spec fn lines_within(lines: Seq<usize>, buf: SegBuffer) -> bool {
    forall|k: int| 0 <= k < lines.len() ==> #[trigger] lines[k] <= buf.line_total()
}

/// The viewport a view shows at `v` settles to: moved to the last
/// position when it keeps to the end, then kept within `end` positions.
pub open spec fn settled_view(v: ViewportView, follows: bool, end: usize) -> ViewportView {
    let t1 = if follows {
        jump_top(v.0 as int, v.2 as int, sat_sub(end as int, 1))
    } else {
        v.0 as int
    };
    let top = if t1 >= end {
        sat_sub(end as int, 1)
    } else {
        t1
    };
    let height = if v.2 > end {
        end
    } else {
        v.2
    };
    (top as usize, v.1, height, v.3)
}

/// Whether every row of `rows` that has a colour is one of `before`.
pub open spec fn colours_kept(rows: Seq<CachedLine>, before: Seq<CachedLine>) -> bool {
    forall|j: int| 0 <= j < rows.len() && (#[trigger] rows[j]).color != Color::Reset ==> before.contains(rows[j])
}

/// Each row at a position the rows `before`, from position `ot`, covered
/// is the row kept from there when `keep` holds; every other row was read
/// afresh and has no colour or mark yet.
pub open spec fn rows_kept(rows: Seq<CachedLine>, before: Seq<CachedLine>, ot: int, keep: bool) -> bool {
    forall|j: int|
        0 <= j < rows.len() ==> if keep && ot <= (#[trigger] rows[j]).index < ot + before.len() {
            rows[j] == before[rows[j].index - ot]
        } else {
            rows[j].color == Color::Reset && !rows[j].bookmarked
        }
}

/// Whether the viewport from `new_top` to `new_bot` meets the one from
/// `old_top` to `old_bot`.
pub open spec fn views_meet(old_top: int, old_bot: int, new_top: int, new_bot: int) -> bool {
    !(new_top > old_bot || new_bot < old_top)
}

/// The rows a view last showed, kept so that a scroll reads only the lines
/// that come into view.
pub struct ViewCache {
    composite: LineSet,
    cache: VecDeque<CachedLine>,
    prev_viewport: Viewport,
    curr_viewport: Viewport,
    follow_output: bool,
    end_index: usize,
    need_recoloring: bool,
}

impl ViewCache {
    /// The set of lines the view shows.
    pub closed spec fn lines_shown(&self) -> LineSet {
        self.composite
    }

    /// The rows kept.
    pub closed spec fn rows(&self) -> Seq<CachedLine> {
        self.cache@
    }

    /// The viewport the view will show.
    pub closed spec fn view(&self) -> Viewport {
        self.curr_viewport
    }

    /// The viewport the rows were read for.
    pub closed spec fn prev_view(&self) -> Viewport {
        self.prev_viewport
    }

    /// Whether the view keeps to the end of the lines.
    pub closed spec fn follows(&self) -> bool {
        self.follow_output
    }

    /// The number of positions the view can show.
    pub closed spec fn end(&self) -> usize {
        self.end_index
    }

    /// Whether every row must be coloured afresh.
    pub closed spec fn recolor_pending(&self) -> bool {
        self.need_recoloring
    }

    /// The set of lines can be read, and the rows kept are those of `buf`
    /// from the top of the viewport they were read for.
    pub closed spec fn wf(&self, buf: SegBuffer) -> bool {
        &&& self.composite.wf()
        &&& self.prev_viewport@.0 + self.prev_viewport@.2 <= usize::MAX
        &&& rows_fit(self.cache@, self.prev_viewport@.0 as int, self.composite.lines(), buf)
    }

    /// What a view that agrees with `buf` holds.
    pub proof fn lemma_wf(&self, buf: SegBuffer)
        requires
            self.wf(buf),
        ensures
            self.lines_shown().wf(),
            self.prev_view()@.0 + self.prev_view()@.2 <= usize::MAX,
            rows_fit(self.rows(), self.prev_view()@.0 as int, self.lines_shown().lines(), buf),
    {
    }

    /// A view of `composite` at the origin, with no rows read.
    pub fn new(composite: LineSet) -> (r: Self)
        requires
            composite.wf(),
        ensures
            forall|buf: SegBuffer| #[trigger] r.wf(buf),
            r.lines_shown() == composite,
            r.rows() == Seq::<CachedLine>::empty(),
            r.view()@ == (0usize, 0usize, 0usize, 0usize),
            r.prev_view()@ == (0usize, 0usize, 0usize, 0usize),
            !r.follows(),
            !r.recolor_pending(),
            r.end() == 0,
    {
        ViewCache {
            composite,
            cache: VecDeque::new(),
            prev_viewport: Viewport::new(),
            curr_viewport: Viewport::new(),
            follow_output: false,
            need_recoloring: false,
            end_index: 0,
        }
    }

    /// Sets the number of positions the view can show.
    pub fn set_end_index(&mut self, end_index: usize)
        ensures
            forall|buf: SegBuffer| old(self).wf(buf) ==> #[trigger] final(self).wf(buf),
            final(self).end() == end_index,
            final(self).lines_shown() == old(self).lines_shown(),
            final(self).rows() == old(self).rows(),
            final(self).view() == old(self).view(),
            final(self).prev_view() == old(self).prev_view(),
            final(self).follows() == old(self).follows(),
            final(self).recolor_pending() == old(self).recolor_pending(),
    {
        self.end_index = end_index;
    }

    /// The set of lines the view shows.
    pub fn composite(&self) -> (r: &LineSet)
        ensures
            *r == self.lines_shown(),
    {
        &self.composite
    }

    /// Makes the view keep to the end of the lines, or stop doing so.
    pub fn set_follow_output(&mut self, follow_output: bool)
        ensures
            forall|buf: SegBuffer| old(self).wf(buf) ==> #[trigger] final(self).wf(buf),
            final(self).follows() == follow_output,
            final(self).lines_shown() == old(self).lines_shown(),
            final(self).rows() == old(self).rows(),
            final(self).view() == old(self).view(),
            final(self).prev_view() == old(self).prev_view(),
            final(self).end() == old(self).end(),
            final(self).recolor_pending() == old(self).recolor_pending(),
    {
        self.follow_output = follow_output;
    }

    /// Whether the view keeps to the end of the lines.
    pub fn is_following_output(&self) -> (r: bool)
        ensures
            r == self.follows(),
    {
        self.follow_output
    }

    /// The viewport the view will show.
    pub fn viewport(&self) -> (r: &Viewport)
        ensures
            *r == self.view(),
    {
        &self.curr_viewport
    }

    /// The viewport the view will show, to change in place.
    pub fn viewport_mut(&mut self) -> (r: &mut Viewport)
        ensures
            *r == old(self).view(),
            final(self).view() == *final(r),
            final(self).lines_shown() == old(self).lines_shown(),
            final(self).rows() == old(self).rows(),
            final(self).prev_view() == old(self).prev_view(),
            final(self).follows() == old(self).follows(),
            final(self).end() == old(self).end(),
            final(self).recolor_pending() == old(self).recolor_pending(),
            forall|buf: SegBuffer| old(self).wf(buf) ==> #[trigger] final(self).wf(buf),
    {
        &mut self.curr_viewport
    }

    /// The line shown at position `index`.
    pub fn line_at_view_index(&self, index: usize) -> (r: Option<usize>)
        requires
            self.lines_shown().wf(),
        ensures
            r == (if index < self.lines_shown().lines().len() {
                Some(self.lines_shown().lines()[index as int])
            } else {
                None::<usize>
            }),
    {
        self.composite.get(index)
    }

    /// The text of line `line_number`, or nothing where the buffer cannot
    /// give it.
    fn text_of(buf: &SegBuffer, line_number: usize) -> (r: String)
        requires
            buf.wf(),
            line_number <= buf.line_total(),
        ensures
            r@ == shown_text(*buf, line_number),
    {
        match buf.get_line(line_number) {
            Some(data) => data,
            None => String::new(),
        }
    }

    /// Puts the row at position `index` before the rows kept, its text
    /// empty where the buffer cannot give its line; nothing past the end.
    fn push_front(&mut self, index: usize, buf: &SegBuffer)
        requires
            old(self).composite.wf(),
            buf.wf(),
            lines_within(old(self).composite.lines(), *buf),
        ensures
            final(self).composite == old(self).composite,
            final(self).prev_viewport == old(self).prev_viewport,
            final(self).curr_viewport == old(self).curr_viewport,
            final(self).follow_output == old(self).follow_output,
            final(self).end_index == old(self).end_index,
            final(self).need_recoloring == old(self).need_recoloring,
            index < old(self).composite.lines().len() ==> final(self).cache@ == seq![
                CachedLine {
                    index,
                    line_number: old(self).composite.lines()[index as int],
                    data: final(self).cache@[0].data,
                    color: Color::Reset,
                    bookmarked: false,
                },
            ] + old(self).cache@ && final(self).cache@[0].data@ == shown_text(
                *buf,
                old(self).composite.lines()[index as int],
            ),
            index >= old(self).composite.lines().len() ==> final(self).cache@ == old(self).cache@,
    {
        let line_number = match self.line_at_view_index(index) {
            Some(ln) => ln,
            None => return,
        };
        proof {
            assert(self.composite.lines()[index as int] <= buf.line_total());
        }
        let data = Self::text_of(buf, line_number);
        self.cache.push_front(
            CachedLine { index, line_number, data, color: Color::Reset, bookmarked: false },
        );
    }

    /// Puts the row at position `index` after the rows kept, where the set
    /// has a line there that the buffer can give; says whether it did.
    fn push_back(&mut self, index: usize, buf: &SegBuffer) -> (r: bool)
        requires
            old(self).composite.wf(),
            buf.wf(),
            lines_within(old(self).composite.lines(), *buf),
        ensures
            final(self).composite == old(self).composite,
            final(self).prev_viewport == old(self).prev_viewport,
            final(self).curr_viewport == old(self).curr_viewport,
            final(self).follow_output == old(self).follow_output,
            final(self).end_index == old(self).end_index,
            final(self).need_recoloring == old(self).need_recoloring,
            r == (index < old(self).composite.lines().len() && buf.line_readable(
                old(self).composite.lines()[index as int] as int,
            )),
            r ==> final(self).cache@ == old(self).cache@.push(
                CachedLine {
                    index,
                    line_number: old(self).composite.lines()[index as int],
                    data: final(self).cache@.last().data,
                    color: Color::Reset,
                    bookmarked: false,
                },
            ) && final(self).cache@.last().data@ == shown_text(
                *buf,
                old(self).composite.lines()[index as int],
            ),
            !r ==> final(self).cache@ == old(self).cache@,
    {
        let line_number = match self.line_at_view_index(index) {
            Some(ln) => ln,
            None => return false,
        };
        proof {
            assert(self.composite.lines()[index as int] <= buf.line_total());
        }
        let data = match buf.get_line(line_number) {
            Some(data) => data,
            None => return false,
        };
        self.cache.push_back(
            CachedLine { index, line_number, data, color: Color::Reset, bookmarked: false },
        );
        true
    }

    /// Settles the viewport and reads the rows it shows, keeping the rows
    /// already read that stay in view; returns the line of the last row.
    pub fn cache_view(&mut self, buf: &SegBuffer) -> (r: Option<usize>)
        requires
            old(self).wf(*buf),
            buf.wf(),
            lines_within(old(self).lines_shown().lines(), *buf),
            old(self).follows() ==> old(self).view()@.0 + old(self).view()@.2 <= usize::MAX,
            old(self).end() <= usize::MAX / 2,
        ensures
            final(self).wf(*buf),
            final(self).view()@ == settled_view(old(self).view()@, old(self).follows(), old(self).end()),
            final(self).prev_view() == final(self).view(),
            final(self).lines_shown() == old(self).lines_shown(),
            final(self).follows() == old(self).follows(),
            final(self).end() == old(self).end(),
            final(self).recolor_pending() == old(self).recolor_pending(),
            rows_fit(
                final(self).rows(),
                final(self).view()@.0 as int,
                final(self).lines_shown().lines(),
                *buf,
            ),
            final(self).rows().len() <= final(self).view()@.2,
            final(self).rows().len() < final(self).view()@.2 ==> ({
                let next = final(self).view()@.0 + final(self).rows().len();
                next >= final(self).lines_shown().lines().len() || !buf.line_readable(
                    final(self).lines_shown().lines()[next] as int,
                )
            }),
            colours_kept(final(self).rows(), old(self).rows()),
            rows_kept(
                final(self).rows(),
                old(self).rows(),
                old(self).prev_view()@.0 as int,
                views_meet(
                    old(self).prev_view()@.0 as int,
                    old(self).prev_view()@.0 + old(self).prev_view()@.2,
                    final(self).view()@.0 as int,
                    final(self).view()@.0 + final(self).view()@.2,
                ),
            ),
            r == (if final(self).rows().len() > 0 {
                Some(final(self).rows().last().line_number)
            } else {
                None::<usize>
            }),
    {
        if self.follow_output {
            self.curr_viewport.jump_to(self.end_index.saturating_sub(1));
        }
        self.curr_viewport.clamp(self.end_index);
        let old_top = self.prev_viewport.top();
        let new_top = self.curr_viewport.top();
        let old_bot = self.prev_viewport.bottom();
        let new_bot = self.curr_viewport.bottom();
        let ghost before = self.cache@;
        self.shift_rows(buf, old_top, old_bot, new_top, new_bot);
        let ghost mid = self.cache@;
        let height = self.curr_viewport.height();
        self.fill_rows(buf, new_top, height);
        proof {
            let meet = views_meet(old_top as int, old_bot as int, new_top as int, new_bot as int);
            let rows = self.cache@;
            assert forall|j: int| 0 <= j < rows.len() implies if meet && old_top <= (#[trigger] rows[j]).index
                < old_top + before.len() {
                rows[j] == before[rows[j].index - old_top]
            } else {
                rows[j].color == Color::Reset && !rows[j].bookmarked
            } by {
                if j < mid.len() {
                    assert(rows[j] == mid[j]);
                } else {
                    assert(rows[j].index == new_top + j);
                }
            }
        }
        self.prev_viewport = self.curr_viewport;
        let n = self.cache.len();
        if n > 0 {
            Some(self.cache[n - 1].line_number)
        } else {
            None
        }
    }

    /// The rows read, in order.
    pub fn cached_rows(&self) -> (r: &VecDeque<CachedLine>)
        ensures
            r@ == self.rows(),
    {
        &self.cache
    }

    /// Clears the colour of every row and marks them all for colouring
    /// afresh.
    pub fn reset_color_cache(&mut self)
        ensures
            final(self).recolor_pending(),
            final(self).rows().len() == old(self).rows().len(),
            forall|j: int|
                0 <= j < final(self).rows().len() ==> (#[trigger] final(self).rows()[j]) == (
                CachedLine { color: Color::Reset, ..old(self).rows()[j] }),
            final(self).lines_shown() == old(self).lines_shown(),
            final(self).view() == old(self).view(),
            final(self).prev_view() == old(self).prev_view(),
            final(self).follows() == old(self).follows(),
            final(self).end() == old(self).end(),
            forall|buf: SegBuffer| old(self).wf(buf) ==> #[trigger] final(self).wf(buf),
    {
        self.need_recoloring = true;
        let n = self.cache.len();
        let ghost before = self.cache@;
        let mut k: usize = 0;
        while k < n
            invariant
                k <= n == before.len(),
                self.cache@.len() == n,
                forall|j: int| 0 <= j < n - k ==> #[trigger] self.cache@[j] == before[j + k],
                forall|j: int|
                    n - k <= j < n ==> #[trigger] self.cache@[j] == (CachedLine {
                        color: Color::Reset,
                        ..before[j - (n - k)]
                    }),
                self.composite == old(self).composite,
                self.prev_viewport == old(self).prev_viewport,
                self.curr_viewport == old(self).curr_viewport,
                self.follow_output == old(self).follow_output,
                self.end_index == old(self).end_index,
                self.need_recoloring,
            decreases n - k,
        {
            let ghost mid = self.cache@;
            if let Some(line) = self.cache.pop_front() {
                self.cache.push_back(CachedLine { color: Color::Reset, ..line });
            }
            proof {
                assert forall|j: int| 0 <= j < n - (k + 1) implies #[trigger] self.cache@[j] == before[j + k + 1] by {
                    assert(self.cache@[j] == mid[j + 1]);
                }
                assert forall|j: int| n - (k + 1) <= j < n implies #[trigger] self.cache@[j] == (CachedLine {
                    color: Color::Reset,
                    ..before[j - (n - (k + 1))]
                }) by {
                    if j < n - 1 {
                        assert(self.cache@[j] == mid[j + 1]);
                    }
                }
            }
            k = k + 1;
        }
        proof {
            assert forall|buf: SegBuffer| old(self).wf(buf) implies #[trigger] self.wf(buf) by {
                assert forall|j: int| 0 <= j < self.cache@.len() implies {
                    &&& (#[trigger] self.cache@[j]).index == self.prev_viewport@.0 + j
                    &&& self.cache@[j].index < self.composite.lines().len()
                    &&& self.cache@[j].line_number == self.composite.lines()[self.cache@[j].index as int]
                    &&& self.cache@[j].data@ == shown_text(buf, self.cache@[j].line_number)
                } by {
                    assert(self.cache@[j] == (CachedLine { color: Color::Reset, ..before[j] }));
                }
            }
        }
    }

    /// Colours the rows that have no colour, or every row after a reset:
    /// each gets the colour of the last enabled filter that matches its
    /// line, white where none does, and is marked when its line is
    /// bookmarked. A reset stays pending while an enabled filter is still
    /// gathering lines.
    pub fn color_cache<M>(&mut self, compositor: &Compositor<M, Color>)
        requires
            compositor.wf(),
        ensures
            final(self).recolor_pending() == (old(self).recolor_pending() && any_incomplete(
                compositor.spec_filters().list(),
            )),
            final(self).rows().len() == old(self).rows().len(),
            forall|j: int|
                0 <= j < old(self).rows().len() ==> #[trigger] final(self).rows()[j] == (if old(
                    self,
                ).recolor_pending() || old(self).rows()[j].color == Color::Reset {
                    CachedLine {
                        color: line_color(
                            compositor.spec_filters().list(),
                            old(self).rows()[j].line_number,
                        ),
                        bookmarked: compositor.spec_filters().bookmark_lines().contains(
                            old(self).rows()[j].line_number,
                        ),
                        ..old(self).rows()[j]
                    }
                } else {
                    old(self).rows()[j]
                }),
            final(self).lines_shown() == old(self).lines_shown(),
            final(self).view() == old(self).view(),
            final(self).prev_view() == old(self).prev_view(),
            final(self).follows() == old(self).follows(),
            final(self).end() == old(self).end(),
            forall|buf: SegBuffer| old(self).wf(buf) ==> #[trigger] final(self).wf(buf),
    {
        let filters = compositor.filters();
        let ghost start = self.cache@;
        let ghost pending = self.need_recoloring;
        if self.need_recoloring {
            self.reset_color_cache();
            self.need_recoloring = any_active_incomplete(filters);
        }
        let bookmarks = filters.bookmarks();
        let n = self.cache.len();
        let ghost before = self.cache@;
        let ghost fs = filters.list();
        let mut k: usize = 0;
        while k < n
            invariant
                k <= n == before.len() == start.len(),
                filters.wf(),
                fs == filters.list(),
                bookmarks.wf(),
                bookmarks.lines() == filters.bookmark_lines(),
                self.cache@.len() == n,
                forall|j: int|
                    0 <= j < n ==> #[trigger] before[j] == (if pending {
                        CachedLine { color: Color::Reset, ..start[j] }
                    } else {
                        start[j]
                    }),
                forall|j: int| 0 <= j < n - k ==> #[trigger] self.cache@[j] == before[j + k],
                forall|j: int|
                    n - k <= j < n ==> #[trigger] self.cache@[j] == ({
                        let row = before[j - (n - k)];
                        if row.color == Color::Reset {
                            CachedLine {
                                color: line_color(fs, row.line_number),
                                bookmarked: bookmarks.lines().contains(row.line_number),
                                ..row
                            }
                        } else {
                            row
                        }
                    }),
                self.composite == old(self).composite,
                self.prev_viewport == old(self).prev_viewport,
                self.curr_viewport == old(self).curr_viewport,
                self.follow_output == old(self).follow_output,
                self.end_index == old(self).end_index,
                self.need_recoloring == (pending && any_incomplete(fs)),
            decreases n - k,
        {
            let ghost mid = self.cache@;
            if let Some(line) = self.cache.pop_front() {
                let row = if line.color == Color::Reset {
                    let color = color_for(filters, line.line_number);
                    let bookmarked = bookmarks.has_line(line.line_number);
                    CachedLine { color, bookmarked, ..line }
                } else {
                    line
                };
                self.cache.push_back(row);
            }
            proof {
                assert forall|j: int| 0 <= j < n - (k + 1) implies #[trigger] self.cache@[j] == before[j + k + 1] by {
                    assert(self.cache@[j] == mid[j + 1]);
                }
                assert forall|j: int| n - (k + 1) <= j < n implies #[trigger] self.cache@[j] == ({
                    let row = before[j - (n - (k + 1))];
                    if row.color == Color::Reset {
                        CachedLine {
                            color: line_color(fs, row.line_number),
                            bookmarked: bookmarks.lines().contains(row.line_number),
                            ..row
                        }
                    } else {
                        row
                    }
                }) by {
                    if j < n - 1 {
                        assert(self.cache@[j] == mid[j + 1]);
                    }
                }
            }
            k = k + 1;
        }
        proof {
            assert forall|buf: SegBuffer| old(self).wf(buf) implies #[trigger] self.wf(buf) by {
                assert forall|j: int| 0 <= j < self.cache@.len() implies {
                    &&& (#[trigger] self.cache@[j]).index == self.prev_viewport@.0 + j
                    &&& self.cache@[j].index < self.composite.lines().len()
                    &&& self.cache@[j].line_number == self.composite.lines()[self.cache@[j].index as int]
                    &&& self.cache@[j].data@ == shown_text(buf, self.cache@[j].line_number)
                } by {
                    assert(before[j].index == start[j].index);
                    assert(before[j].line_number == start[j].line_number);
                    assert(before[j].data == start[j].data);
                }
            }
        }
    }

    /// Shows the lines of `line_set` instead, with no rows kept, and keeps
    /// the line at the top of the viewport at the top where the new set
    /// holds it.
    pub fn insert_new_line_set(&mut self, line_set: LineSet)
        requires
            old(self).lines_shown().wf(),
            old(self).prev_view()@.0 + old(self).prev_view()@.2 <= usize::MAX,
            line_set.wf(),
        ensures
            forall|buf: SegBuffer| #[trigger] final(self).wf(buf),
            final(self).lines_shown() == line_set,
            final(self).rows() == Seq::<CachedLine>::empty(),
            ({
                let v = old(self).view()@;
                let old_lines = old(self).lines_shown().lines();
                if v.0 < old_lines.len() && line_set.lines().contains(old_lines[v.0 as int]) {
                    let t = final(self).view()@.0;
                    t < line_set.lines().len() && line_set.lines()[t as int] == old_lines[v.0 as int]
                } else {
                    final(self).view()@.0 == v.0
                }
            }),
            final(self).view()@.1 == old(self).view()@.1,
            final(self).view()@.2 == old(self).view()@.2,
            final(self).view()@.3 == old(self).view()@.3,
            final(self).prev_view() == old(self).prev_view(),
            final(self).follows() == old(self).follows(),
            final(self).end() == old(self).end(),
            final(self).recolor_pending() == old(self).recolor_pending(),
    {
        self.cache.clear();
        let old_line_number = self.line_at_view_index(self.curr_viewport.top());
        self.composite = line_set;
        if let Some(old_line_number) = old_line_number {
            if let Some(index) = self.composite.find(old_line_number) {
                self.curr_viewport.top_to(index);
            }
        }
    }

    /// Moves the rows kept from the top `old_top` to `new_top`: drops them
    /// all when the two viewports do not meet, else drops the rows above
    /// the new top or reads those above the old one.
    fn shift_rows(&mut self, buf: &SegBuffer, old_top: usize, old_bot: usize, new_top: usize, new_bot: usize)
        requires
            old(self).composite.wf(),
            buf.wf(),
            lines_within(old(self).composite.lines(), *buf),
            rows_fit(old(self).cache@, old_top as int, old(self).composite.lines(), *buf),
        ensures
            final(self).composite == old(self).composite,
            final(self).prev_viewport == old(self).prev_viewport,
            final(self).curr_viewport == old(self).curr_viewport,
            final(self).follow_output == old(self).follow_output,
            final(self).end_index == old(self).end_index,
            final(self).need_recoloring == old(self).need_recoloring,
            rows_fit(final(self).cache@, new_top as int, final(self).composite.lines(), *buf),
            colours_kept(final(self).cache@, old(self).cache@),
            rows_kept(
                final(self).cache@,
                old(self).cache@,
                old_top as int,
                views_meet(old_top as int, old_bot as int, new_top as int, new_bot as int),
            ),
            views_meet(old_top as int, old_bot as int, new_top as int, new_bot as int) && old(self).cache@.len() > 0
                ==> new_top + final(self).cache@.len() >= old_top + old(self).cache@.len(),
    {
        let ghost orig = self.cache@;
        let ghost lines = self.composite.lines();
        if new_top > old_bot || new_bot < old_top {
            self.cache.clear();
        } else if old_top < new_top {
            let mut k = old_top;
            while k < new_top
                invariant
                    old_top <= k <= new_top,
                    lines == self.composite.lines(),
                    self.composite == old(self).composite,
                    self.prev_viewport == old(self).prev_viewport,
                    self.curr_viewport == old(self).curr_viewport,
                    self.follow_output == old(self).follow_output,
                    self.end_index == old(self).end_index,
                    self.need_recoloring == old(self).need_recoloring,
                    rows_fit(self.cache@, k as int, lines, *buf),
                    forall|j: int| 0 <= j < self.cache@.len() ==> orig.contains(#[trigger] self.cache@[j]),
                    forall|j: int| 0 <= j < self.cache@.len() ==> #[trigger] self.cache@[j] == orig[j + (k - old_top)],
                    self.cache@.len() == (if orig.len() >= k - old_top {
                        orig.len() - (k - old_top)
                    } else {
                        0
                    }),
                    rows_fit(orig, old_top as int, lines, *buf),
                decreases new_top - k,
            {
                let ghost before = self.cache@;
                let _ = self.cache.pop_front();
                proof {
                    assert forall|j: int| 0 <= j < self.cache@.len() implies #[trigger] self.cache@[j] == orig[j + (k + 1 - old_top)] by {
                        assert(self.cache@[j] == before[j + 1]);
                    }
                    assert forall|j: int| 0 <= j < self.cache@.len() implies orig.contains(#[trigger] self.cache@[j]) by {
                        assert(self.cache@[j] == before[j + 1]);
                    }
                    assert forall|j: int| 0 <= j < self.cache@.len() implies {
                        &&& (#[trigger] self.cache@[j]).index == k + 1 + j
                        &&& self.cache@[j].index < lines.len()
                        &&& self.cache@[j].line_number == lines[self.cache@[j].index as int]
                        &&& self.cache@[j].data@ == shown_text(*buf, self.cache@[j].line_number)
                    } by {
                        assert(self.cache@[j] == before[j + 1]);
                    }
                }
                k = k + 1;
            }
        } else {
            let mut i = old_top;
            proof {
                if self.cache@.len() > 0 {
                    assert(self.cache@[0].index == old_top);
                }
            }
            while i > new_top
                invariant
                    new_top <= i <= old_top,
                    self.composite.wf(),
                    self.composite == old(self).composite,
                    self.prev_viewport == old(self).prev_viewport,
                    self.curr_viewport == old(self).curr_viewport,
                    self.follow_output == old(self).follow_output,
                    self.end_index == old(self).end_index,
                    self.need_recoloring == old(self).need_recoloring,
                    buf.wf(),
                    lines == self.composite.lines(),
                    lines_within(lines, *buf),
                    rows_fit(self.cache@, i as int, lines, *buf),
                    self.cache@.len() > 0 ==> i < lines.len(),
                    forall|j: int|
                        0 <= j < self.cache@.len() && (#[trigger] self.cache@[j]).color != Color::Reset
                            ==> orig.contains(self.cache@[j]),
                    self.cache@.len() >= orig.len(),
                    forall|j: int|
                        self.cache@.len() - orig.len() <= j < self.cache@.len() ==> #[trigger] self.cache@[j]
                            == orig[j - (self.cache@.len() - orig.len())],
                    forall|j: int|
                        0 <= j < self.cache@.len() - orig.len() ==> (#[trigger] self.cache@[j]).color
                            == Color::Reset && !self.cache@[j].bookmarked,
                    orig.len() > 0 ==> self.cache@.len() - orig.len() == old_top - i,
                    rows_fit(orig, old_top as int, lines, *buf),
                decreases i - new_top,
            {
                i = i - 1;
                let ghost before = self.cache@;
                self.push_front(i, buf);
                proof {
                    if i < lines.len() {
                        assert forall|j: int|
                            self.cache@.len() - orig.len() <= j < self.cache@.len() implies #[trigger] self.cache@[j]
                            == orig[j - (self.cache@.len() - orig.len())] by {
                            assert(self.cache@[j] == before[j - 1]);
                        }
                        assert forall|j: int|
                            0 <= j < self.cache@.len() - orig.len() implies (#[trigger] self.cache@[j]).color
                            == Color::Reset && !self.cache@[j].bookmarked by {
                            if j > 0 {
                                assert(self.cache@[j] == before[j - 1]);
                            }
                        }
                    } else {
                        if orig.len() > 0 {
                            assert(before[before.len() - orig.len()] == orig[0]);
                            assert(orig[0].index == old_top);
                        }
                    }
                    if i < lines.len() {
                        assert forall|j: int| 1 <= j < self.cache@.len() implies self.cache@[j] == before[j - 1] by {}
                        assert forall|j: int| 0 <= j < self.cache@.len() implies {
                            &&& (#[trigger] self.cache@[j]).index == i + j
                            &&& self.cache@[j].index < lines.len()
                            &&& self.cache@[j].line_number == lines[self.cache@[j].index as int]
                            &&& self.cache@[j].data@ == shown_text(*buf, self.cache@[j].line_number)
                        } by {
                            if j > 0 {
                                assert(self.cache@[j] == before[j - 1]);
                            }
                        }
                    }
                }
            }
        }
    }

    /// Reads rows after those kept until the viewport's height is reached
    /// or the set or the buffer has no more, then keeps no more than the
    /// height.
    fn fill_rows(&mut self, buf: &SegBuffer, top: usize, height: usize)
        requires
            old(self).composite.wf(),
            buf.wf(),
            lines_within(old(self).composite.lines(), *buf),
            rows_fit(old(self).cache@, top as int, old(self).composite.lines(), *buf),
            top + height <= usize::MAX,
        ensures
            final(self).composite == old(self).composite,
            final(self).prev_viewport == old(self).prev_viewport,
            final(self).curr_viewport == old(self).curr_viewport,
            final(self).follow_output == old(self).follow_output,
            final(self).end_index == old(self).end_index,
            final(self).need_recoloring == old(self).need_recoloring,
            rows_fit(final(self).cache@, top as int, final(self).composite.lines(), *buf),
            final(self).cache@.len() <= height,
            final(self).cache@.len() < height ==> ({
                let next = top + final(self).cache@.len();
                next >= final(self).composite.lines().len() || !buf.line_readable(
                    final(self).composite.lines()[next] as int,
                )
            }),
            colours_kept(final(self).cache@, old(self).cache@),
            forall|j: int|
                0 <= j < final(self).cache@.len() && j < old(self).cache@.len() ==> #[trigger] final(self).cache@[j]
                    == old(self).cache@[j],
            forall|j: int|
                old(self).cache@.len() <= j < final(self).cache@.len() ==> (#[trigger] final(self).cache@[j]).color
                    == Color::Reset && !final(self).cache@[j].bookmarked,
    {
        let ghost orig = self.cache@;
        let ghost lines = self.composite.lines();
        loop
            invariant
                self.composite.wf(),
                buf.wf(),
                lines == self.composite.lines(),
                lines_within(lines, *buf),
                top + height <= usize::MAX,
                rows_fit(self.cache@, top as int, lines, *buf),
                self.composite == old(self).composite,
                self.prev_viewport == old(self).prev_viewport,
                self.curr_viewport == old(self).curr_viewport,
                self.follow_output == old(self).follow_output,
                self.end_index == old(self).end_index,
                self.need_recoloring == old(self).need_recoloring,
                forall|j: int|
                    0 <= j < self.cache@.len() && (#[trigger] self.cache@[j]).color != Color::Reset
                        ==> orig.contains(self.cache@[j]),
                self.cache@.len() >= orig.len(),
                forall|j: int| 0 <= j < orig.len() ==> #[trigger] self.cache@[j] == orig[j],
                forall|j: int|
                    orig.len() <= j < self.cache@.len() ==> (#[trigger] self.cache@[j]).color == Color::Reset
                        && !self.cache@[j].bookmarked,
            ensures
                self.cache@.len() >= orig.len(),
                forall|j: int| 0 <= j < orig.len() ==> #[trigger] self.cache@[j] == orig[j],
                forall|j: int|
                    orig.len() <= j < self.cache@.len() ==> (#[trigger] self.cache@[j]).color == Color::Reset
                        && !self.cache@[j].bookmarked,
                rows_fit(self.cache@, top as int, lines, *buf),
                self.composite == old(self).composite,
                self.prev_viewport == old(self).prev_viewport,
                self.curr_viewport == old(self).curr_viewport,
                self.follow_output == old(self).follow_output,
                self.end_index == old(self).end_index,
                self.need_recoloring == old(self).need_recoloring,
                self.cache@.len() < height ==> ({
                    let next = top + self.cache@.len();
                    next >= lines.len() || !buf.line_readable(lines[next] as int)
                }),
                forall|j: int|
                    0 <= j < self.cache@.len() && (#[trigger] self.cache@[j]).color != Color::Reset
                        ==> orig.contains(self.cache@[j]),
            decreases height - self.cache@.len(),
        {
            if self.cache.len() >= height {
                break;
            }
            let idx = self.cache.len() + top;
            let ghost before = self.cache@;
            if !self.push_back(idx, buf) {
                break;
            }
            proof {
                assert forall|j: int| 0 <= j < before.len() implies self.cache@[j] == before[j] by {}
            }
        }
        let ghost before = self.cache@;
        self.cache.truncate(height);
        proof {
            assert forall|j: int| 0 <= j < self.cache@.len() implies self.cache@[j] == before[j] by {}
            assert forall|j: int| 0 <= j < self.cache@.len() && j < orig.len() implies #[trigger] self.cache@[j] == orig[j] by {
                assert(self.cache@[j] == before[j]);
            }
            assert forall|j: int| orig.len() <= j < self.cache@.len() implies (#[trigger] self.cache@[j]).color
                == Color::Reset && !self.cache@[j].bookmarked by {
                assert(self.cache@[j] == before[j]);
            }
            assert forall|j: int|
                0 <= j < self.cache@.len() && (#[trigger] self.cache@[j]).color != Color::Reset implies orig.contains(
                self.cache@[j],
            ) by {
                assert(self.cache@[j] == before[j]);
            }
        }
    }
}

/// A view that keeps to the end, once settled over `end >= 1` rows,
/// shows the last row: its top is at or before it and it lies within the
/// view's height.
pub proof fn law_following_shows_the_end(v: ViewportView, end: usize)
    requires
        v.2 >= 1,
        end >= 1,
    ensures
        settled_view(v, true, end).0 <= end - 1 < settled_view(v, true, end).0 + settled_view(v, true, end).2,
{
    let index = end - 1;
    let t1 = jump_top(v.0 as int, v.2 as int, index);
    assert(t1 <= index < t1 + v.2) by {
        reveal(jump_top);
    }
}

/// Whether two filters are the same to colouring: both off, or both on
/// with the same colour and the same lines.
pub open spec fn same_to_colour<M>(f: Filter<M, Color>, g: Filter<M, Color>) -> bool {
    &&& f.spec_enabled() == g.spec_enabled()
    &&& f.spec_enabled() ==> f.spec_color() == g.spec_color() && f.spec_data() == g.spec_data()
}

/// Only the filters that are on colour a line: a line's colour is white or
/// the colour of some enabled filter that holds it, and changing the
/// colour or lines of filters that are off changes no line's colour.
pub proof fn law_colour_from_enabled_filters<M>(fs: Seq<Filter<M, Color>>, gs: Seq<Filter<M, Color>>, ln: usize)
    requires
        fs.len() == gs.len(),
        forall|k: int| 0 <= k < fs.len() ==> same_to_colour(#[trigger] fs[k], gs[k]),
    ensures
        line_color(fs, ln) == Color::White || exists|k: int|
            0 <= k < fs.len() && (#[trigger] fs[k]).spec_enabled() && matches_line(fs[k], ln)
                && fs[k].spec_color() == line_color(fs, ln),
        line_color(fs, ln) == line_color(gs, ln),
    decreases fs.len(),
{
    if fs.len() > 0 {
        let fd = fs.drop_last();
        let gd = gs.drop_last();
        assert forall|k: int| 0 <= k < fd.len() implies same_to_colour(#[trigger] fd[k], gd[k]) by {
            assert(fd[k] == fs[k] && gd[k] == gs[k]);
        }
        law_colour_from_enabled_filters(fd, gd, ln);
        assert(same_to_colour(fs[fs.len() - 1], gs[gs.len() - 1]));
        if fs.last().spec_enabled() && matches_line(fs.last(), ln) {
            assert(fs[fs.len() - 1] == fs.last());
        } else if line_color(fd, ln) != Color::White {
            let k = choose|k: int|
                0 <= k < fd.len() && (#[trigger] fd[k]).spec_enabled() && matches_line(fd[k], ln)
                    && fd[k].spec_color() == line_color(fd, ln);
            assert(fs[k] == fd[k]);
        }
    }
}

} // verus!
