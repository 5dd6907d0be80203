use vstd::prelude::*;

use crate::actions::ViewDelta;
use crate::cursor::{back_arg, back_spec, clamp_spec, forward_spec, Cursor, CursorState, SelectionOrigin};
use crate::direction::Direction;
use crate::lineset::{
    backward_pick, composed, forward_pick, is_nearest_backward, is_nearest_forward, set_backward,
    set_forward, CompositeStrategy, LineSet,
};
use crate::viewport::{jump_top, sat_add, sat_sub, Viewport};
use crate::buffer::SegBuffer;
use crate::search::{regex_compiles, regex_escaped, search_spec, Pattern};
use crate::colors::{Color, ColorSelector};
use crate::node::{count_less, lemma_count_less_sorted, lemma_sorted_insert, lemma_sorted_remove, sorted_strict};

verus! {

/// How a filter's mask is saved: the pattern of a regular expression.
#[derive(Clone, PartialEq, Eq, Debug)]
pub enum MaskExport {
    Regex(String),
}

/// A filter as saved: its mask, whether it is on, and its colour.
pub struct FilterExport<C> {
    pub mask: MaskExport,
    pub enabled: bool,
    pub color: C,
}

/// The text of a saved mask.
pub open spec fn mask_text(mask: MaskExport) -> Seq<char> {
    match mask {
        MaskExport::Regex(s) => s@,
    }
}

/// Why a search filter could not be made.
#[derive(Clone, Copy, PartialEq, Eq, Debug, Structural)]
pub enum SearchError {
    /// The pattern does not compile.
    Invalid,
    /// A match lies on no line of the buffer.
    OffLine,
}

/// The number of items of a sorted sequence that are smaller than `v`.
fn position_of(s: &Vec<usize>, v: usize) -> (r: usize)
    requires
        sorted_strict(s@),
    ensures
        r == count_less(s@, v),
{
    let mut lo: usize = 0;
    let mut hi: usize = s.len();
    while lo < hi
        invariant
            lo <= hi <= s@.len(),
            forall|i: int| 0 <= i < lo ==> s@[i] < v,
            forall|i: int| hi <= i < s@.len() ==> s@[i] >= v,
            sorted_strict(s@),
        decreases hi - lo,
    {
        let mid = lo + (hi - lo) / 2;
        if s[mid] < v {
            lo = mid + 1;
        } else {
            hi = mid;
        }
    }
    proof {
        crate::node::lemma_count_less_unique(s@, v, lo as int);
    }
    lo
}

/// `after` holds `x` exactly when `before` does not, and agrees with it on
/// every other line.
pub open spec fn toggled(before: Seq<usize>, after: Seq<usize>, x: usize) -> bool {
    forall|y: usize| #[trigger] after.contains(y) <==> (if y == x { !before.contains(y) } else { before.contains(y) })
}

/// Toggling a line twice leaves the marks as they were.
pub proof fn law_toggle_twice(a: Seq<usize>, b: Seq<usize>, c: Seq<usize>, x: usize)
    requires
        toggled(a, b, x),
        toggled(b, c, x),
    ensures
        forall|y: usize| #[trigger] c.contains(y) <==> a.contains(y),
{
    assert forall|y: usize| #[trigger] c.contains(y) <==> a.contains(y) by {
        assert(c.contains(y) <==> (if y == x { !b.contains(y) } else { b.contains(y) }));
        assert(b.contains(y) <==> (if y == x { !a.contains(y) } else { a.contains(y) }));
    }
}

/// The lines a user has marked, kept ascending without repeats.
#[derive(Clone)]
pub struct Bookmarks {
    lines: Vec<usize>,
}

impl Bookmarks {
    /// The marked lines, ascending.
    pub closed spec fn lines(&self) -> Seq<usize> {
        self.lines@
    }

    /// The marked lines ascend strictly.
    pub closed spec fn wf(&self) -> bool {
        sorted_strict(self.lines@)
    }

    /// No marked line.
    pub fn new() -> (r: Self)
        ensures
            r.wf(),
            r.lines() == Seq::<usize>::empty(),
    {
        Bookmarks { lines: Vec::new() }
    }

    /// The marked line at position `idx`.
    pub fn get(&self, idx: usize) -> (r: Option<usize>)
        ensures
            r == (if idx < self.lines().len() {
                Some(self.lines()[idx as int])
            } else {
                None::<usize>
            }),
    {
        if idx < self.lines.len() {
            Some(self.lines[idx])
        } else {
            None
        }
    }

    /// Marks `line_number`; a marked line stays marked once.
    pub fn add(&mut self, line_number: usize)
        requires
            old(self).wf(),
        ensures
            final(self).wf(),
            forall|x: usize| #[trigger] final(self).lines().contains(x) <==> (old(self).lines().contains(x) || x == line_number),
    {
        let i = position_of(&self.lines, line_number);
        proof {
            lemma_count_less_sorted(self.lines@, line_number);
        }
        if i < self.lines.len() && self.lines[i] == line_number {
            return;
        }
        let ghost before = self.lines@;
        proof {
            lemma_sorted_insert(before, line_number, i as int);
        }
        self.lines.insert(i, line_number);
        proof {
            assert forall|x: usize| #[trigger] self.lines@.contains(x) <==> (before.contains(x) || x == line_number) by {
                if self.lines@.contains(x) {
                    let k = choose|k: int| 0 <= k < self.lines@.len() && self.lines@[k] == x;
                    if k < i {
                        assert(before[k] == x);
                    } else if k > i {
                        assert(before[k - 1] == x);
                    }
                }
                if before.contains(x) {
                    let k = choose|k: int| 0 <= k < before.len() && before[k] == x;
                    if k < i {
                        assert(self.lines@[k] == x);
                    } else {
                        assert(self.lines@[k + 1] == x);
                    }
                }
                if x == line_number {
                    assert(self.lines@[i as int] == x);
                }
            }
        }
    }

    /// Unmarks `line_number`.
    pub fn remove(&mut self, line_number: usize)
        requires
            old(self).wf(),
        ensures
            final(self).wf(),
            forall|x: usize| #[trigger] final(self).lines().contains(x) <==> (old(self).lines().contains(x) && x != line_number),
    {
        let i = position_of(&self.lines, line_number);
        proof {
            lemma_count_less_sorted(self.lines@, line_number);
        }
        if i < self.lines.len() && self.lines[i] == line_number {
            let ghost before = self.lines@;
            proof {
                lemma_sorted_remove(before, i as int);
            }
            self.lines.remove(i);
            proof {
                assert forall|x: usize| #[trigger] self.lines@.contains(x) <==> (before.contains(x) && x != line_number) by {
                    if self.lines@.contains(x) {
                        let k = choose|k: int| 0 <= k < self.lines@.len() && self.lines@[k] == x;
                        if k < i {
                            assert(before[k] == x);
                        } else {
                            assert(before[k + 1] == x);
                        }
                    }
                    if before.contains(x) && x != line_number {
                        let k = choose|k: int| 0 <= k < before.len() && before[k] == x;
                        if k < i {
                            assert(self.lines@[k] == x);
                        } else if k > i {
                            assert(self.lines@[k - 1] == x);
                        }
                    }
                }
            }
        } else {
            proof {
                assert forall|x: usize| #[trigger] self.lines@.contains(x) implies x != line_number by {
                    let k = choose|k: int| 0 <= k < self.lines@.len() && self.lines@[k] == x;
                    if k < i {
                        assert(self.lines@[k] < line_number);
                    } else if k > i {
                        assert(self.lines@[i as int] < self.lines@[k]);
                    }
                }
            }
        }
    }

    /// Marks `line_number`, or unmarks it when it is marked.
    pub fn toggle(&mut self, line_number: usize)
        requires
            old(self).wf(),
        ensures
            final(self).wf(),
            toggled(old(self).lines(), final(self).lines(), line_number),
    {
        if self.has_line(line_number) {
            self.remove(line_number);
        } else {
            self.add(line_number);
        }
    }

    /// Whether `line_number` is marked.
    pub fn has_line(&self, line_number: usize) -> (r: bool)
        requires
            self.wf(),
        ensures
            r == self.lines().contains(line_number),
    {
        let i = position_of(&self.lines, line_number);
        proof {
            lemma_count_less_sorted(self.lines@, line_number);
        }
        if i < self.lines.len() && self.lines[i] == line_number {
            true
        } else {
            proof {
                if self.lines@.contains(line_number) {
                    let k = choose|k: int| 0 <= k < self.lines@.len() && self.lines@[k] == line_number;
                    if k > i {
                        assert(self.lines@[i as int] < self.lines@[k]);
                    }
                }
            }
            false
        }
    }

    /// The number of marked lines.
    pub fn len(&self) -> (r: usize)
        ensures
            r == self.lines().len(),
    {
        self.lines.len()
    }

    /// The first marked line after `line_number`, or the last marked line
    /// when none follows; `None` when none is marked.
    pub fn nearest_forward(&self, line_number: usize) -> (r: Option<usize>)
        requires
            self.wf(),
        ensures
            r is None <==> self.lines().len() == 0,
            r matches Some(x) ==> is_nearest_forward(self.lines(), line_number, x),
            r == forward_pick(self.lines(), line_number),
    {
        let n = self.lines.len();
        if n == 0 {
            return None;
        }
        let i = position_of(&self.lines, line_number);
        proof {
            lemma_count_less_sorted(self.lines@, line_number);
        }
        let pos = if i < n && self.lines[i] == line_number {
            i + 1
        } else {
            i
        };
        let at = if pos < n {
            pos
        } else {
            n - 1
        };
        let x = self.lines[at];
        proof {
            let s = self.lines@;
            assert(s.contains(x)) by {
                assert(s[at as int] == x);
            }
            if exists|k: int| 0 <= k < s.len() && s[k] > line_number {
                let k = choose|k: int| 0 <= k < s.len() && s[k] > line_number;
                assert(pos <= k) by {
                    if pos > k {
                        assert(s[k] <= line_number);
                    }
                }
                assert forall|j: int| 0 <= j < s.len() && s[j] > line_number implies x <= s[j] by {
                    if j < pos {
                        assert(s[j] <= line_number);
                    }
                }
            } else {
                if pos < s.len() {
                    assert(s[pos as int] > line_number);
                }
            }
        }
        Some(x)
    }

    /// The last marked line before `line_number`, or the first marked line
    /// when none precedes; `None` when none is marked.
    pub fn nearest_backward(&self, line_number: usize) -> (r: Option<usize>)
        requires
            self.wf(),
        ensures
            r is None <==> self.lines().len() == 0,
            r matches Some(x) ==> is_nearest_backward(self.lines(), line_number, x),
            r == backward_pick(self.lines(), line_number),
    {
        let n = self.lines.len();
        if n == 0 {
            return None;
        }
        let i = position_of(&self.lines, line_number);
        proof {
            lemma_count_less_sorted(self.lines@, line_number);
        }
        let before = if i > 0 {
            i - 1
        } else {
            0
        };
        let at = if before < n {
            before
        } else {
            n - 1
        };
        let x = self.lines[at];
        proof {
            let s = self.lines@;
            assert(s.contains(x)) by {
                assert(s[at as int] == x);
            }
            if exists|k: int| 0 <= k < s.len() && s[k] < line_number {
                let k = choose|k: int| 0 <= k < s.len() && s[k] < line_number;
                assert(i > k);
                assert forall|j: int| 0 <= j < s.len() && s[j] < line_number implies x >= s[j] by {
                    if j >= i {
                        assert(s[j] >= line_number);
                    }
                }
            } else {
                if i > 0 {
                    assert(s[0] < line_number);
                }
            }
        }
        Some(x)
    }

    /// Unmarks every line.
    pub fn clear(&mut self)
        ensures
            final(self).wf(),
            final(self).lines() == Seq::<usize>::empty(),
    {
        self.lines.clear();
    }

    /// The marked lines, ascending.
    pub fn to_vec(&self) -> (r: Vec<usize>)
        ensures
            r@ == self.lines(),
    {
        let mut out: Vec<usize> = Vec::new();
        let mut i: usize = 0;
        while i < self.lines.len()
            invariant
                i <= self.lines@.len(),
                out@ == self.lines@.take(i as int),
            decreases self.lines@.len() - i,
        {
            out.push(self.lines[i]);
            i = i + 1;
            proof {
                assert(out@ =~= self.lines@.take(i as int));
            }
        }
        proof {
            assert(self.lines@.take(self.lines@.len() as int) =~= self.lines@);
        }
        out
    }
}

/// What a filter matches: every line, the bookmarked lines, or the lines
/// of a search.
pub enum FilterData {
    All,
    Bookmarks(Bookmarks),
    Search(LineSet),
}

/// A filter: a mask that names it, whether it is on, the colour it shows
/// its lines in, and the lines it matches.
pub struct Filter<M, C> {
    mask: M,
    enabled: bool,
    color: C,
    data: FilterData,
}

/// The line a forward jump from `v` finds in filter data `d`.
pub open spec fn data_forward(d: FilterData, v: usize) -> Option<usize> {
    match d {
        FilterData::All => None,
        FilterData::Bookmarks(b) => forward_pick(b.lines(), v),
        FilterData::Search(s) => set_forward(s, v),
    }
}

/// The line a backward jump from `v` finds in filter data `d`.
pub open spec fn data_backward(d: FilterData, v: usize) -> Option<usize> {
    match d {
        FilterData::All => None,
        FilterData::Bookmarks(b) => backward_pick(b.lines(), v),
        FilterData::Search(s) => set_backward(s, v),
    }
}

/// The lines filter data `d` matches, none standing for every line.
pub open spec fn data_lines(d: FilterData) -> Option<Seq<usize>> {
    match d {
        FilterData::All => None,
        FilterData::Bookmarks(b) => Some(b.lines()),
        FilterData::Search(s) => Some(s.lines()),
    }
}

/// The data of a filter can be read.
pub open spec fn data_wf(d: FilterData) -> bool {
    match d {
        FilterData::All => true,
        FilterData::Bookmarks(b) => b.wf(),
        FilterData::Search(s) => s.wf(),
    }
}

impl<M, C> Filter<M, C> {
    pub closed spec fn spec_enabled(&self) -> bool {
        self.enabled
    }

    pub closed spec fn spec_data(&self) -> FilterData {
        self.data
    }

    pub closed spec fn spec_mask(&self) -> M {
        self.mask
    }

    pub closed spec fn spec_color(&self) -> C {
        self.color
    }

    /// The filter's data can be read.
    pub open spec fn wf(&self) -> bool {
        data_wf(self.spec_data())
    }

    /// The filter of every line, on.
    pub fn all(mask: M, color: C) -> (r: Self)
        ensures
            r.wf(),
            r.spec_enabled(),
            r.spec_data() is All,
            r.spec_mask() == mask,
            r.spec_color() == color,
    {
        Filter { mask, enabled: true, color, data: FilterData::All }
    }

    /// The filter of the bookmarked lines, on, with none bookmarked.
    pub fn bookmark(mask: M, color: C) -> (r: Self)
        ensures
            r.wf(),
            r.spec_enabled(),
            r.spec_data() matches FilterData::Bookmarks(b) && b.lines() == Seq::<usize>::empty(),
            r.spec_mask() == mask,
            r.spec_color() == color,
    {
        Filter { mask, enabled: true, color, data: FilterData::Bookmarks(Bookmarks::new()) }
    }

    /// A filter of the given data, on.
    pub fn from_filter(mask: M, color: C, data: FilterData) -> (r: Self)
        ensures
            r.spec_enabled(),
            r.spec_data() == data,
            r.spec_mask() == mask,
            r.spec_color() == color,
    {
        Filter { mask, enabled: true, color, data }
    }

    /// The colour.
    pub fn color(&self) -> (r: &C)
        ensures
            *r == self.spec_color(),
    {
        &self.color
    }

    /// The mask.
    pub fn mask(&self) -> (r: &M)
        ensures
            *r == self.spec_mask(),
    {
        &self.mask
    }

    /// Whether the filter is on.
    pub fn is_enabled(&self) -> (r: bool)
        ensures
            r == self.spec_enabled(),
    {
        self.enabled
    }

    /// Turns the filter on or off.
    pub fn toggle(&mut self)
        ensures
            final(self).spec_enabled() == !old(self).spec_enabled(),
            final(self).spec_data() == old(self).spec_data(),
            final(self).spec_mask() == old(self).spec_mask(),
            final(self).spec_color() == old(self).spec_color(),
    {
        self.enabled = !self.enabled;
    }

    /// Whether the filter matches `line_number`: every line for the filter
    /// of every line.
    pub fn has_line(&self, line_number: usize) -> (r: bool)
        requires
            self.wf(),
        ensures
            r == match data_lines(self.spec_data()) {
                Some(lines) => lines.contains(line_number),
                None => true,
            },
    {
        match &self.data {
            FilterData::All => true,
            FilterData::Bookmarks(b) => b.has_line(line_number),
            FilterData::Search(s) => s.has_line(line_number),
        }
    }

    /// The number of lines the filter reports, none for every line.
    pub fn len(&self) -> (r: Option<usize>)
        requires
            self.wf(),
        ensures
            r == match self.spec_data() {
                FilterData::All => None::<usize>,
                FilterData::Bookmarks(b) => Some(b.lines().len() as usize),
                FilterData::Search(s) => Some(s.spec_len() as usize),
            },
    {
        match &self.data {
            FilterData::All => None,
            FilterData::Bookmarks(b) => Some(b.len()),
            FilterData::Search(s) => Some(s.len()),
        }
    }

    /// The lines of the filter as a set: empty for the filter of every
    /// line.
    pub fn as_line_matches(&self) -> (r: LineSet)
        requires
            self.wf(),
        ensures
            r.wf(),
            r.lines() == match data_lines(self.spec_data()) {
                Some(lines) => lines,
                None => Seq::<usize>::empty(),
            },
    {
        match &self.data {
            FilterData::All => LineSet::empty(),
            FilterData::Bookmarks(b) => LineSet::from(b.to_vec()),
            FilterData::Search(s) => s.duplicate(),
        }
    }

    /// The line a forward jump from `line_number` finds in the filter.
    pub fn nearest_forward(&self, line_number: usize) -> (r: Option<usize>)
        requires
            self.wf(),
        ensures
            r == data_forward(self.spec_data(), line_number),
    {
        match &self.data {
            FilterData::All => None,
            FilterData::Bookmarks(b) => b.nearest_forward(line_number),
            FilterData::Search(s) => s.nearest_forward(line_number),
        }
    }

    /// The line a backward jump from `line_number` finds in the filter.
    pub fn nearest_backward(&self, line_number: usize) -> (r: Option<usize>)
        requires
            self.wf(),
        ensures
            r == data_backward(self.spec_data(), line_number),
    {
        match &self.data {
            FilterData::All => None,
            FilterData::Bookmarks(b) => b.nearest_backward(line_number),
            FilterData::Search(s) => s.nearest_backward(line_number),
        }
    }

    /// The line at position `line_number` of the filter's lines: the
    /// position itself for the filter of every line.
    pub fn translate_to_file_line(&self, line_number: usize) -> (r: Option<usize>)
        requires
            self.wf(),
        ensures
            r == match data_lines(self.spec_data()) {
                Some(lines) => if line_number < lines.len() {
                    Some(lines[line_number as int])
                } else {
                    None::<usize>
                },
                None => Some(line_number),
            },
    {
        match &self.data {
            FilterData::All => Some(line_number),
            FilterData::Bookmarks(b) => b.get(line_number),
            FilterData::Search(s) => s.get(line_number),
        }
    }

    /// Whether the filter holds the lines of a search.
    pub fn is_search(&self) -> (r: bool)
        ensures
            r == self.spec_data() is Search,
    {
        match &self.data {
            FilterData::Search(_) => true,
            _ => false,
        }
    }

    /// Whether the filter's lines are all known.
    pub fn is_complete(&self) -> (r: bool)
        ensures
            r == match self.spec_data() {
                FilterData::Search(s) => s.completed(),
                _ => true,
            },
    {
        match &self.data {
            FilterData::All => true,
            FilterData::Bookmarks(_) => true,
            FilterData::Search(s) => s.is_complete(),
        }
    }
}


impl<C: Copy> Filter<String, C> {
    /// The filter as saved: its pattern, whether it is on, and its colour.
    pub fn to_export(&self) -> (r: FilterExport<C>)
        requires
            self.spec_data() is Search,
        ensures
            mask_text(r.mask) == self.spec_mask()@,
            r.enabled == self.spec_enabled(),
            r.color == self.spec_color(),
    {
        FilterExport { mask: MaskExport::Regex(self.mask.clone()), enabled: self.enabled, color: self.color }
    }

    /// The search filter a saved filter stands for over the lines of
    /// `file`: its pattern compiled and searched for, with its state and
    /// colour; an error where the pattern does not compile or a match lies
    /// on no line.
    pub fn from_export(file: &SegBuffer, export: FilterExport<C>) -> (r: Result<Self, SearchError>)
        requires
            file.wf(),
        ensures
            ({
                let text = mask_text(export.mask);
                let found = search_spec(text, file.contents(), file.offsets(), 0);
                &&& !regex_compiles(text) ==> r == Err::<Self, SearchError>(SearchError::Invalid)
                &&& regex_compiles(text) && found is None ==> r == Err::<Self, SearchError>(SearchError::OffLine)
                &&& regex_compiles(text) && found is Some ==> (r matches Ok(f) && {
                    &&& f.wf()
                    &&& f.spec_mask()@ == text
                    &&& f.spec_enabled() == export.enabled
                    &&& f.spec_color() == export.color
                    &&& f.spec_data() matches FilterData::Search(set) && set.completed() && Some(set.lines())
                        == found
                })
            }),
    {
        let MaskExport::Regex(pattern) = export.mask;
        let compiled = match Pattern::new(pattern.as_str()) {
            Ok(p) => p,
            Err(_) => return Err(SearchError::Invalid),
        };
        let data = file.all_bytes();
        let lines = match LineSet::search(file.index(), data.as_slice(), &compiled) {
            Some(lines) => lines,
            None => return Err(SearchError::OffLine),
        };
        Ok(
            Filter {
                mask: String::from_str(compiled.as_str()),
                enabled: export.enabled,
                color: export.color,
                data: FilterData::Search(lines),
            },
        )
    }
}

/// The filters of a view: the filter of every line, the bookmarks, and
/// the filters the user added, in that order.
pub struct Filters<M, C> {
    all: Filter<M, C>,
    bookmarks: Filter<M, C>,
    user_filters: Vec<Filter<M, C>>,
}

impl<M, C> Filters<M, C> {
    /// The filters, in order.
    pub closed spec fn list(&self) -> Seq<Filter<M, C>> {
        seq![self.all, self.bookmarks] + self.user_filters@
    }

    /// The filters the user added.
    pub closed spec fn user_list(&self) -> Seq<Filter<M, C>> {
        self.user_filters@
    }

    /// The first filter matches every line, the second the bookmarks, and
    /// every filter can be read.
    pub closed spec fn wf(&self) -> bool {
        &&& self.all.data is All
        &&& self.bookmarks.data is Bookmarks
        &&& forall|k: int| 0 <= k < self.list().len() ==> (#[trigger] self.list()[k]).wf()
        &&& self.user_filters@.len() + 2 <= usize::MAX
    }

    /// The bookmarked lines.
    pub closed spec fn bookmark_lines(&self) -> Seq<usize> {
        match self.bookmarks.data {
            FilterData::Bookmarks(b) => b.lines(),
            _ => Seq::empty(),
        }
    }

    /// A well-formed list starts with the filter of every line and the
    /// bookmarks.
    pub proof fn lemma_builtins(&self)
        requires
            self.wf(),
        ensures
            self.list().len() >= 2,
            self.list()[0].spec_data() is All,
            self.list()[1].spec_data() matches FilterData::Bookmarks(b) && b.lines()
                == self.bookmark_lines() && b.wf(),
            forall|k: int| 0 <= k < self.list().len() ==> (#[trigger] self.list()[k]).wf(),
            self.list() == seq![self.list()[0], self.list()[1]] + self.user_list(),
    {
        assert(self.list()[0] == self.all);
        assert(self.list()[1] == self.bookmarks);
    }

    /// The filter of every line and the bookmarks, with no filter added.
    pub fn new(all: Filter<M, C>, bookmarks: Filter<M, C>) -> (r: Self)
        requires
            all.spec_data() is All,
            bookmarks.wf(),
            bookmarks.spec_data() is Bookmarks,
        ensures
            r.wf(),
            r.list() == seq![all, bookmarks],
    {
        let r = Filters { all, bookmarks, user_filters: Vec::new() };
        proof {
            assert(r.list() =~= seq![all, bookmarks]);
        }
        r
    }

    /// The number of filters.
    pub fn len(&self) -> (r: usize)
        requires
            self.wf(),
        ensures
            r == self.list().len(),
    {
        self.user_filters.len() + 2
    }

    /// The filter at `index`.
    pub fn get(&self, index: usize) -> (r: Option<&Filter<M, C>>)
        requires
            self.wf(),
        ensures
            index < self.list().len() ==> r == Some(&self.list()[index as int]),
            index >= self.list().len() ==> r is None,
            r matches Some(f) ==> f.wf(),
    {
        if index == 0 {
            Some(&self.all)
        } else if index == 1 {
            Some(&self.bookmarks)
        } else if index - 2 < self.user_filters.len() {
            Some(&self.user_filters[index - 2])
        } else {
            None
        }
    }

    /// The filter at `index`, for changing it; the others stay.
    pub fn get_mut(&mut self, index: usize) -> (r: Option<&mut Filter<M, C>>)
        requires
            old(self).wf(),
        ensures
            index >= old(self).list().len() ==> r is None && *final(self) == *old(self),
            index < old(self).list().len() ==> (r matches Some(x) && *x == old(self).list()[index as int]
                && final(self).list() =~= old(self).list().update(index as int, *final(x))),
            final(self).user_list().len() == old(self).user_list().len(),
    {
        if index == 0 {
            Some(&mut self.all)
        } else if index == 1 {
            Some(&mut self.bookmarks)
        } else if index - 2 < self.user_filters.len() {
            Some(&mut self.user_filters[index - 2])
        } else {
            None
        }
    }

    /// A well-formed list with one filter replaced by a readable filter of
    /// the same kind of lines is well formed.
    pub proof fn lemma_replaced_wf(&self, other: &Self, index: int)
        requires
            self.wf(),
            0 <= index < self.list().len(),
            other.user_list().len() == self.user_list().len(),
            other.list() == self.list().update(index, other.list()[index]),
            other.list()[index].wf(),
            other.list()[index].spec_data() is All <==> self.list()[index].spec_data() is All,
            other.list()[index].spec_data() is Bookmarks <==> self.list()[index].spec_data() is Bookmarks,
        ensures
            other.wf(),
    {
        assert(other.list()[0] == other.all);
        assert(other.list()[1] == other.bookmarks);
        assert(self.list()[0] == self.all);
        assert(self.list()[1] == self.bookmarks);
        assert forall|k: int| 0 <= k < other.list().len() implies (#[trigger] other.list()[k]).wf() by {
            if k != index {
                assert(other.list()[k] == self.list()[k]);
            }
        }
    }

    /// Turns the filter at `index` on or off, when there is one.
    pub fn toggle(&mut self, index: usize)
        requires
            old(self).wf(),
        ensures
            final(self).wf(),
            final(self).list().len() == old(self).list().len(),
            final(self).bookmark_lines() == old(self).bookmark_lines(),
            forall|k: int|
                0 <= k < old(self).list().len() ==> {
                    &&& (#[trigger] final(self).list()[k]).spec_enabled() == (if k == index {
                        !old(self).list()[k].spec_enabled()
                    } else {
                        old(self).list()[k].spec_enabled()
                    })
                    &&& final(self).list()[k].spec_data() == old(self).list()[k].spec_data()
                    &&& final(self).list()[k].spec_mask() == old(self).list()[k].spec_mask()
                    &&& final(self).list()[k].spec_color() == old(self).list()[k].spec_color()
                },
    {
        let ghost before = self.list();
        if index == 0 {
            self.all.toggle();
        } else if index == 1 {
            self.bookmarks.toggle();
        } else if index - 2 < self.user_filters.len() {
            let mut f = self.user_filters.remove(index - 2);
            f.toggle();
            self.user_filters.insert(index - 2, f);
        }
        proof {
            assert forall|k: int| 0 <= k < self.list().len() implies (#[trigger] self.list()[k]).wf() by {
                assert(self.list()[k].spec_data() == before[k].spec_data());
            }
        }
    }

    /// The bookmarks.
    pub fn bookmarks(&self) -> (r: &Bookmarks)
        requires
            self.wf(),
        ensures
            r.wf(),
            r.lines() == self.bookmark_lines(),
    {
        proof {
            assert(self.list()[1] == self.bookmarks);
        }
        match &self.bookmarks.data {
            FilterData::Bookmarks(b) => b,
            _ => {
                // Not reached: the second filter always holds the bookmarks.
                loop
                    invariant
                        self.wf(),
                        !(self.bookmarks.data is Bookmarks),
                    decreases 0nat,
                {
                }
            },
        }
    }

    /// Bookmarks `line_number`, or removes its bookmark.
    pub fn toggle_bookmark(&mut self, line_number: usize)
        requires
            old(self).wf(),
        ensures
            final(self).list()[0] == old(self).list()[0],
            final(self).list()[1].spec_enabled() == old(self).list()[1].spec_enabled(),
            final(self).list().len() == old(self).list().len(),
            final(self).wf(),
            toggled(old(self).bookmark_lines(), final(self).bookmark_lines(), line_number),
            final(self).user_list() == old(self).user_list(),
    {
        self.update_bookmarks(line_number, 0);
    }

    /// Bookmarks `line_number`.
    pub fn add_bookmark(&mut self, line_number: usize)
        requires
            old(self).wf(),
        ensures
            final(self).list()[0] == old(self).list()[0],
            final(self).list()[1].spec_enabled() == old(self).list()[1].spec_enabled(),
            final(self).list().len() == old(self).list().len(),
            final(self).wf(),
            forall|x: usize| #[trigger] final(self).bookmark_lines().contains(x) <==> (old(self).bookmark_lines().contains(x) || x == line_number),
            final(self).user_list() == old(self).user_list(),
    {
        self.update_bookmarks(line_number, 1);
    }

    /// Removes the bookmark of `line_number`.
    pub fn remove_bookmark(&mut self, line_number: usize)
        requires
            old(self).wf(),
        ensures
            final(self).list()[0] == old(self).list()[0],
            final(self).list()[1].spec_enabled() == old(self).list()[1].spec_enabled(),
            final(self).list().len() == old(self).list().len(),
            final(self).wf(),
            forall|x: usize| #[trigger] final(self).bookmark_lines().contains(x) <==> (old(self).bookmark_lines().contains(x) && x != line_number),
            final(self).user_list() == old(self).user_list(),
    {
        self.update_bookmarks(line_number, 2);
    }

    /// Toggles (0), adds (1) or removes (2) the bookmark of `line_number`.
    fn update_bookmarks(&mut self, line_number: usize, how: u8)
        requires
            old(self).wf(),
            how <= 2,
        ensures
            final(self).list()[0] == old(self).list()[0],
            final(self).list()[1].spec_enabled() == old(self).list()[1].spec_enabled(),
            final(self).wf(),
            how == 0 ==> toggled(old(self).bookmark_lines(), final(self).bookmark_lines(), line_number),
            how == 1 ==> forall|x: usize| #[trigger] final(self).bookmark_lines().contains(x) <==> (old(self).bookmark_lines().contains(x) || x == line_number),
            how == 2 ==> forall|x: usize| #[trigger] final(self).bookmark_lines().contains(x) <==> (old(self).bookmark_lines().contains(x) && x != line_number),
            final(self).user_list() == old(self).user_list(),
            final(self).list().len() == old(self).list().len(),
    {
        let mut data = FilterData::All;
        std::mem::swap(&mut data, &mut self.bookmarks.data);
        match data {
            FilterData::Bookmarks(mut b) => {
                proof {
                    assert(old(self).list()[1] == old(self).bookmarks);
                }
                if how == 0 {
                    b.toggle(line_number);
                } else if how == 1 {
                    b.add(line_number);
                } else {
                    b.remove(line_number);
                }
                self.bookmarks.data = FilterData::Bookmarks(b);
            },
            other => {
                self.bookmarks.data = other;
            },
        }
        proof {
            assert forall|k: int| 0 <= k < self.list().len() implies (#[trigger] self.list()[k]).wf() by {
                if k >= 2 {
                    assert(self.list()[k] == old(self).list()[k]);
                }
            }
        }
    }

    /// Removes every bookmark and every filter the user added.
    pub fn clear(&mut self)
        requires
            old(self).wf(),
        ensures
            final(self).wf(),
            final(self).bookmark_lines() == Seq::<usize>::empty(),
            final(self).user_list() == Seq::<Filter<M, C>>::empty(),
            final(self).list().len() == 2,
    {
        let mut data = FilterData::All;
        std::mem::swap(&mut data, &mut self.bookmarks.data);
        match data {
            FilterData::Bookmarks(mut b) => {
                b.clear();
                self.bookmarks.data = FilterData::Bookmarks(b);
            },
            other => {
                self.bookmarks.data = other;
            },
        }
        self.user_filters.clear();
        proof {
            assert forall|k: int| 0 <= k < self.list().len() implies (#[trigger] self.list()[k]).wf() by {
            }
        }
    }

    /// Removes the filters the user added that lie under cursor `c`.
    pub fn remove_under(&mut self, c: Cursor)
        requires
            old(self).wf(),
            removal_ok(old(self).user_list().len() as int, c),
        ensures
            final(self).wf(),
            final(self).user_list() == removed_under(old(self).user_list(), c),
            final(self).bookmark_lines() == old(self).bookmark_lines(),
    {
        let ghost before = self.user_filters@;
        match c {
            Cursor::Singleton(i) => {
                if i > 1 {
                    self.user_filters.remove(i - 2);
                }
            },
            Cursor::Selection(start, end, _) => {
                let start2 = if start > 2 {
                    start
                } else {
                    2
                };
                if start2 <= end {
                    let mut kept: Vec<Filter<M, C>> = Vec::new();
                    let mut rest: Vec<Filter<M, C>> = Vec::new();
                    std::mem::swap(&mut rest, &mut self.user_filters);
                    let n = rest.len();
                    let mut j: usize = 0;
                    let ghost orig = rest@;
                    while j < n
                        invariant
                            j <= n,
                            rest@.len() == n - j,
                            orig.len() == n,
                            rest@ == orig.skip(j as int),
                            end - 2 < n,
                            start2 <= end,
                            start2 >= 2,
                            kept@ == (if j <= start2 - 2 {
                                orig.take(j as int)
                            } else if j <= end - 1 {
                                orig.take(start2 - 2)
                            } else {
                                orig.take(start2 - 2) + orig.subrange(end - 1, j as int)
                            }),
                        decreases n - j,
                    {
                        let f = rest.remove(0);
                        proof {
                            assert(f == orig[j as int]);
                            assert(rest@ =~= orig.skip(j + 1));
                        }
                        if j < start2 - 2 || j > end - 2 {
                            kept.push(f);
                        }
                        j = j + 1;
                        proof {
                            if j <= start2 - 2 {
                                assert(kept@ =~= orig.take(j as int));
                            } else if j <= end - 1 {
                                assert(kept@ =~= orig.take(start2 - 2));
                            } else {
                                assert(kept@ =~= orig.take(start2 - 2) + orig.subrange(end - 1, j as int));
                            }
                        }
                    }
                    proof {
                        assert(orig.subrange(end - 1, n as int) =~= orig.skip(end - 1));
                    }
                    self.user_filters = kept;
                }
            },
        }
        proof {
            assert forall|k: int| 0 <= k < self.list().len() implies (#[trigger] self.list()[k]).wf() by {
                if k >= 2 {
                    let u = self.user_filters@;
                    assert(self.list()[k] == u[k - 2]);
                    match c {
                        Cursor::Singleton(i) => {
                            if i > 1 {
                                if k - 2 < i - 2 {
                                    assert(u[k - 2] == before[k - 2]);
                                    assert(old(self).list()[k] == before[k - 2]);
                                } else {
                                    assert(u[k - 2] == before[k - 1]);
                                    assert(old(self).list()[k + 1] == before[k - 1]);
                                }
                            } else {
                                assert(old(self).list()[k] == before[k - 2]);
                            }
                        },
                        Cursor::Selection(a, b, _) => {
                            let a2 = if a > 2 { a as int } else { 2int };
                            if a2 <= b {
                                if k - 2 < a2 - 2 {
                                    assert(u[k - 2] == before[k - 2]);
                                    assert(old(self).list()[k] == before[k - 2]);
                                } else {
                                    let m = (k - 2) - (a2 - 2) + (b - 1);
                                    assert(u[k - 2] == before[m]);
                                    assert(old(self).list()[m + 2] == before[m]);
                                }
                            } else {
                                assert(old(self).list()[k] == before[k - 2]);
                            }
                        },
                    }
                } else if k == 0 {
                    assert(old(self).list()[0] == self.all);
                } else {
                    assert(old(self).list()[1] == self.bookmarks);
                }
            }
        }
    }

    /// Adds a filter after the others.
    pub fn push(&mut self, filter: Filter<M, C>)
        requires
            old(self).wf(),
            filter.wf(),
            old(self).list().len() < usize::MAX,
        ensures
            final(self).wf(),
            final(self).list() == old(self).list().push(filter),
            final(self).bookmark_lines() == old(self).bookmark_lines(),
    {
        self.user_filters.push(filter);
        proof {
            assert(self.list() =~= old(self).list().push(filter));
            assert forall|k: int| 0 <= k < self.list().len() implies (#[trigger] self.list()[k]).wf() by {
                if k < old(self).list().len() {
                    assert(self.list()[k] == old(self).list()[k]);
                }
            }
        }
    }
}


/// The largest line below `i` that an enabled filter of `fs` finds by a
/// backward jump from `i`.
pub open spec fn jump_back_over<M, C>(fs: Seq<Filter<M, C>>, i: usize) -> Option<usize>
    decreases fs.len(),
{
    if fs.len() == 0 {
        None
    } else {
        let rest = jump_back_over(fs.drop_last(), i);
        let f = fs.last();
        let cand = if f.spec_enabled() {
            data_backward(f.spec_data(), i)
        } else {
            None
        };
        match cand {
            Some(x) => if x < i {
                match rest {
                    Some(y) => Some(if x > y { x } else { y }),
                    None => Some(x),
                }
            } else {
                rest
            },
            None => rest,
        }
    }
}

/// The smallest line above `i` that an enabled filter of `fs` finds by a
/// forward jump from `i`.
pub open spec fn jump_next_over<M, C>(fs: Seq<Filter<M, C>>, i: usize) -> Option<usize>
    decreases fs.len(),
{
    if fs.len() == 0 {
        None
    } else {
        let rest = jump_next_over(fs.drop_last(), i);
        let f = fs.last();
        let cand = if f.spec_enabled() {
            data_forward(f.spec_data(), i)
        } else {
            None
        };
        match cand {
            Some(x) => if x > i {
                match rest {
                    Some(y) => Some(if x < y { x } else { y }),
                    None => Some(x),
                }
            } else {
                rest
            },
            None => rest,
        }
    }
}

/// The lines of the enabled filters of `fs`, in order, none for the filter
/// of every line.
pub open spec fn active_lines<M, C>(fs: Seq<Filter<M, C>>) -> Seq<Seq<usize>>
    decreases fs.len(),
{
    if fs.len() == 0 {
        Seq::empty()
    } else {
        let rest = active_lines(fs.drop_last());
        let f = fs.last();
        if f.spec_enabled() {
            rest.push(
                match data_lines(f.spec_data()) {
                    Some(l) => l,
                    None => Seq::empty(),
                },
            )
        } else {
            rest
        }
    }
}

/// The position a cursor shows: a single position, or the moving end of a
/// selection.
pub open spec fn focus(c: Cursor) -> usize {
    match c {
        Cursor::Singleton(i) => i,
        Cursor::Selection(i, _, SelectionOrigin::Left) => i,
        Cursor::Selection(_, i, SelectionOrigin::Right) => i,
    }
}

/// The number of rows a move of `delta` covers in a view `height` rows
/// high.
pub open spec fn delta_amount(height: usize, delta: ViewDelta) -> usize {
    match delta {
        ViewDelta::Number(n) => n as usize,
        ViewDelta::Page => height,
        ViewDelta::HalfPage => (height / 2 + height % 2) as usize,
        _ => usize::MAX,
    }
}

/// The position a cursor move transforms, zero when it transforms none.
pub open spec fn move_pos(c: Cursor, select: bool) -> int {
    match back_arg(c, select) {
        Some(a) => a as int,
        None => 0,
    }
}

/// Whether position `k` lies under cursor `c`.
pub open spec fn under_cursor(c: Cursor, k: int) -> bool {
    match c {
        Cursor::Singleton(i) => k == i,
        Cursor::Selection(a, b, _) => a <= k <= b,
    }
}

/// The list of filters the user added after a removal under cursor `c`:
/// the filter under a single position past the two built-in ones, or the
/// added filters a selection covers.
pub open spec fn removed_under<T>(user: Seq<T>, c: Cursor) -> Seq<T> {
    match c {
        Cursor::Singleton(i) => if i > 1 {
            user.remove(i - 2)
        } else {
            user
        },
        Cursor::Selection(a, b, _) => {
            let a2 = if a > 2 { a as int } else { 2int };
            if a2 <= b {
                user.take(a2 - 2) + user.skip(b - 1)
            } else {
                user
            }
        },
    }
}

/// A removal under cursor `c` names filters that exist.
pub open spec fn removal_ok(user_len: int, c: Cursor) -> bool {
    match c {
        Cursor::Singleton(i) => i > 1 ==> i - 2 < user_len,
        Cursor::Selection(a, b, _) => {
            let a2 = if a > 2 { a as int } else { 2int };
            a2 <= b ==> b - 2 < user_len
        },
    }
}

/// The list of filters of a view, with its strategy of composition, and a
/// cursor and a viewport over the list.
pub struct Compositor<M, C> {
    all_composite: LineSet,
    strategy: CompositeStrategy,
    viewport: Viewport,
    cursor: CursorState,
    filters: Filters<M, C>,
}

impl<M, C> Compositor<M, C> {
    pub closed spec fn spec_all(&self) -> LineSet {
        self.all_composite
    }

    pub closed spec fn spec_strategy(&self) -> CompositeStrategy {
        self.strategy
    }

    pub closed spec fn spec_viewport(&self) -> Viewport {
        self.viewport
    }

    pub closed spec fn spec_cursor(&self) -> Cursor {
        self.cursor.state
    }

    pub closed spec fn spec_filters(&self) -> Filters<M, C> {
        self.filters
    }

    /// The set of every line and the filters can be read.
    pub closed spec fn wf(&self) -> bool {
        self.all_composite.wf() && self.filters.wf()
    }

    /// A well-formed compositor's set of every line and filters can be read.
    pub proof fn lemma_wf(&self)
        requires
            self.wf(),
        ensures
            self.spec_all().wf(),
            self.spec_filters().wf(),
    {
    }

    /// Filters over the lines of `all`, composed by union.
    pub fn new(all: LineSet, filters: Filters<M, C>) -> (r: Self)
        requires
            all.wf(),
            filters.wf(),
        ensures
            r.wf(),
            r.spec_all() == all,
            r.spec_filters() == filters,
            r.spec_strategy() == CompositeStrategy::Union,
            r.spec_cursor() == Cursor::Singleton(0),
            r.spec_viewport()@ == (0usize, 0usize, 0usize, 0usize),
    {
        Compositor {
            all_composite: all,
            strategy: CompositeStrategy::Union,
            viewport: Viewport::new(),
            cursor: CursorState::new(),
            filters,
        }
    }

    /// Sets how the filters are composed.
    pub fn set_strategy(&mut self, strategy: CompositeStrategy)
        ensures
            old(self).wf() ==> final(self).wf(),
            final(self).spec_strategy() == strategy,
            final(self).spec_filters() == old(self).spec_filters(),
            final(self).spec_all() == old(self).spec_all(),
            final(self).spec_cursor() == old(self).spec_cursor(),
            final(self).spec_viewport() == old(self).spec_viewport(),
    {
        self.strategy = strategy;
    }

    /// Whether the view shows a composition of filters rather than every
    /// line: the filter of every line is off.
    pub fn needs_composite(&self) -> (r: bool)
        requires
            self.wf(),
        ensures
            r == !self.spec_filters().list()[0].spec_enabled(),
    {
        proof {
            assert(self.filters.list()[0] == self.filters.all);
        }
        !self.filters.all.is_enabled()
    }

    /// The filters.
    pub fn filters(&self) -> (r: &Filters<M, C>)
        ensures
            *r == self.spec_filters(),
            self.wf() ==> r.wf(),
    {
        &self.filters
    }

    /// The filters, to change in place.
    pub fn filters_mut(&mut self) -> (r: &mut Filters<M, C>)
        ensures
            *r == old(self).spec_filters(),
            final(self).spec_filters() == *final(r),
            final(self).spec_all() == old(self).spec_all(),
            final(self).spec_strategy() == old(self).spec_strategy(),
            final(self).spec_cursor() == old(self).spec_cursor(),
            final(self).spec_viewport() == old(self).spec_viewport(),
            (old(self).wf() && final(r).wf()) ==> final(self).wf(),
    {
        &mut self.filters
    }

    /// The cursor over the list of filters.
    pub fn cursor(&self) -> (r: &CursorState)
        ensures
            r.state == self.spec_cursor(),
    {
        &self.cursor
    }

    /// The viewport over the list of filters.
    pub fn viewport(&self) -> (r: &Viewport)
        ensures
            *r == self.spec_viewport(),
    {
        &self.viewport
    }

    /// Turns the filter at `index` on or off.
    pub fn toggle_filter(&mut self, index: usize)
        requires
            old(self).wf(),
        ensures
            final(self).spec_all() == old(self).spec_all(),
            final(self).wf(),
            final(self).spec_cursor() == old(self).spec_cursor(),
            final(self).spec_strategy() == old(self).spec_strategy(),
            final(self).spec_filters().list().len() == old(self).spec_filters().list().len(),
            forall|k: int|
                0 <= k < old(self).spec_filters().list().len() ==> {
                    &&& (#[trigger] final(self).spec_filters().list()[k]).spec_enabled() == (if k == index {
                        !old(self).spec_filters().list()[k].spec_enabled()
                    } else {
                        old(self).spec_filters().list()[k].spec_enabled()
                    })
                    &&& final(self).spec_filters().list()[k].spec_data() == old(self).spec_filters().list()[k].spec_data()
                },
    {
        self.filters.toggle(index);
    }

    /// Bookmarks `line_number`, or removes its bookmark.
    pub fn toggle_bookmark(&mut self, line_number: usize)
        requires
            old(self).wf(),
        ensures
            final(self).spec_all() == old(self).spec_all(),
            final(self).spec_strategy() == old(self).spec_strategy(),
            final(self).wf(),
            toggled(
                old(self).spec_filters().bookmark_lines(),
                final(self).spec_filters().bookmark_lines(),
                line_number,
            ),
            final(self).spec_cursor() == old(self).spec_cursor(),
            final(self).spec_filters().user_list() == old(self).spec_filters().user_list(),
            final(self).spec_filters().list()[0] == old(self).spec_filters().list()[0],
            final(self).spec_filters().list()[1].spec_enabled() == old(self).spec_filters().list()[1].spec_enabled(),
    {
        self.filters.toggle_bookmark(line_number);
    }

    /// Adds a filter after the others.
    pub fn add_filter(&mut self, filter: Filter<M, C>)
        requires
            old(self).wf(),
            filter.wf(),
            old(self).spec_filters().list().len() < usize::MAX,
        ensures
            final(self).spec_all() == old(self).spec_all(),
            final(self).spec_strategy() == old(self).spec_strategy(),
            final(self).wf(),
            final(self).spec_filters().list() == old(self).spec_filters().list().push(filter),
            final(self).spec_cursor() == old(self).spec_cursor(),
    {
        self.filters.push(filter);
    }

    /// Fits the viewport to `viewport_height` rows of the list of filters
    /// and returns the positions of the filters it shows.
    pub fn update_and_filter_view(&mut self, viewport_height: usize) -> (r: std::ops::Range<usize>)
        requires
            old(self).wf(),
        ensures
            final(self).spec_all() == old(self).spec_all(),
            final(self).spec_strategy() == old(self).spec_strategy(),
            final(self).wf(),
            final(self).spec_filters() == old(self).spec_filters(),
            final(self).spec_cursor() == old(self).spec_cursor(),
            ({
                let len = old(self).spec_filters().list().len() as int;
                let h = if viewport_height > len { len } else { viewport_height as int };
                let top = if old(self).spec_viewport()@.0 >= len { len - 1 } else { old(self).spec_viewport()@.0 as int };
                &&& final(self).spec_viewport()@ == (top as usize, old(self).spec_viewport()@.1, h as usize, 0usize)
                &&& r.start == top
                &&& r.end == (if top + h < len { top + h } else { len })
            }),
    {
        self.viewport.fit_view(viewport_height, 0);
        let len = self.filters.len();
        self.viewport.clamp(len);
        let top = self.viewport.top();
        let height = self.viewport.height();
        let end = if height < len - top {
            top + height
        } else {
            len
        };
        top..end
    }

    /// Moves the cursor over the list of filters by `delta` rows, selecting
    /// when `select` is set, keeps it on the list, and brings its moving end
    /// into view.
    pub fn move_select(&mut self, dir: Direction, select: bool, delta: ViewDelta)
        requires
            old(self).wf(),
            !(delta is Match),
            old(self).spec_viewport()@.0 + old(self).spec_viewport()@.2 <= usize::MAX,
        ensures
            final(self).spec_all() == old(self).spec_all(),
            final(self).spec_strategy() == old(self).spec_strategy(),
            final(self).wf(),
            final(self).spec_filters() == old(self).spec_filters(),
            ({
                let d = delta_amount(old(self).spec_viewport()@.2, delta);
                let c = old(self).spec_cursor();
                let moved = match dir {
                    Direction::Back => back_spec(c, select, sat_sub(move_pos(c, select), d as int) as usize),
                    Direction::Next => forward_spec(c, select, sat_add(move_pos(c, select), d as int) as usize),
                };
                let clamped = clamp_spec(moved, sat_sub(old(self).spec_filters().list().len() as int, 1) as usize);
                let v = old(self).spec_viewport()@;
                &&& final(self).spec_cursor() == clamped
                &&& final(self).spec_viewport()@ == (
                    jump_top(v.0 as int, v.2 as int, focus(clamped) as int) as usize,
                    v.1,
                    v.2,
                    v.3,
                )
            }),
    {
        let height = self.viewport.height();
        let d: usize = match delta {
            ViewDelta::Number(n) => n as usize,
            ViewDelta::Page => height,
            ViewDelta::HalfPage => height / 2 + height % 2,
            ViewDelta::Boundary => usize::MAX,
            ViewDelta::Match => usize::MAX,
        };
        let ghost c = self.cursor.state;
        match dir {
            Direction::Back => {
                let f = |i: usize| -> (r: usize)
                    ensures
                        r == sat_sub(i as int, d as int),
                    { i.saturating_sub(d) };
                self.cursor.back(select, f);
                proof {
                    if back_arg(c, select) is Some {
                        let a = back_arg(c, select)->0;
                        let out = choose|out: usize|
                            #[trigger] call_ensures(f, (a,), out) && self.cursor.state == back_spec(c, select, out);
                        assert(out == sat_sub(a as int, d as int));
                    }
                }
            },
            Direction::Next => {
                let f = |i: usize| -> (r: usize)
                    ensures
                        r == sat_add(i as int, d as int),
                    { i.saturating_add(d) };
                self.cursor.forward(select, f);
                proof {
                    if back_arg(c, select) is Some {
                        let a = back_arg(c, select)->0;
                        let out = choose|out: usize|
                            #[trigger] call_ensures(f, (a,), out) && self.cursor.state == forward_spec(c, select, out);
                        assert(out == sat_add(a as int, d as int));
                    }
                }
            },
        }
        let len = self.filters.len();
        self.cursor.clamp(len.saturating_sub(1));
        let i = match self.cursor.state() {
            Cursor::Singleton(i) => i,
            Cursor::Selection(i, _, SelectionOrigin::Left) => i,
            Cursor::Selection(_, i, SelectionOrigin::Right) => i,
        };
        self.viewport.jump_to(i);
    }

    /// Turns on or off each filter under the cursor.
    pub fn toggle_select_filters(&mut self)
        requires
            old(self).wf(),
        ensures
            final(self).spec_all() == old(self).spec_all(),
            final(self).spec_strategy() == old(self).spec_strategy(),
            final(self).wf(),
            final(self).spec_cursor() == old(self).spec_cursor(),
            final(self).spec_filters().list().len() == old(self).spec_filters().list().len(),
            final(self).spec_filters().bookmark_lines() == old(self).spec_filters().bookmark_lines(),
            forall|k: int|
                0 <= k < old(self).spec_filters().list().len() ==> {
                    &&& (#[trigger] final(self).spec_filters().list()[k]).spec_enabled() == (if under_cursor(old(self).spec_cursor(), k) {
                        !old(self).spec_filters().list()[k].spec_enabled()
                    } else {
                        old(self).spec_filters().list()[k].spec_enabled()
                    })
                    &&& final(self).spec_filters().list()[k].spec_data() == old(self).spec_filters().list()[k].spec_data()
                },
    {
        match self.cursor.state() {
            Cursor::Singleton(i) => {
                self.filters.toggle(i);
            },
            Cursor::Selection(start, end, _) => {
                let ghost before = self.filters.list();
                if start <= end {
                    let mut k: usize = start;
                    loop
                        invariant_except_break
                            start <= k <= end,
                            forall|j: int|
                                0 <= j < before.len() ==> (#[trigger] self.filters.list()[j]).spec_enabled() == (if start <= j < k {
                                    !before[j].spec_enabled()
                                } else {
                                    before[j].spec_enabled()
                                }),
                        invariant
                            self.filters.wf(),
                            self.cursor.state == old(self).cursor.state,
                            self.all_composite.wf(),
                            self.all_composite == old(self).all_composite,
                            self.strategy == old(self).strategy,
                            self.filters.list().len() == before.len(),
                            self.filters.bookmark_lines() == old(self).filters.bookmark_lines(),
                            before == old(self).filters.list(),
                            forall|j: int|
                                0 <= j < before.len() ==> (#[trigger] self.filters.list()[j]).spec_data() == before[j].spec_data(),
                        ensures
                            forall|j: int|
                                0 <= j < before.len() ==> (#[trigger] self.filters.list()[j]).spec_enabled() == (if start <= j <= end {
                                    !before[j].spec_enabled()
                                } else {
                                    before[j].spec_enabled()
                                }),
                        decreases end - k,
                    {
                        self.filters.toggle(k);
                        if k == end {
                            break;
                        }
                        k = k + 1;
                    }
                }
            },
        }
    }

    /// Removes the filters the user added that are under the cursor, and
    /// keeps the cursor on the list.
    pub fn remove_select_filters(&mut self)
        requires
            old(self).wf(),
            removal_ok(old(self).spec_filters().user_list().len() as int, old(self).spec_cursor()),
        ensures
            final(self).spec_all() == old(self).spec_all(),
            final(self).spec_strategy() == old(self).spec_strategy(),
            final(self).wf(),
            final(self).spec_filters().user_list() == removed_under(
                old(self).spec_filters().user_list(),
                old(self).spec_cursor(),
            ),
            final(self).spec_filters().bookmark_lines() == old(self).spec_filters().bookmark_lines(),
            final(self).spec_cursor() == clamp_spec(
                old(self).spec_cursor(),
                sat_sub(final(self).spec_filters().list().len() as int, 1) as usize,
            ),
    {
        self.filters.remove_under(self.cursor.state());
        let len = self.filters.len();
        self.cursor.clamp(len.saturating_sub(1));
    }

    /// The line a jump in `direction` from line `i` goes to: with the filter
    /// of every line off, the line before or after; otherwise the nearest
    /// line below (or above) `i` that an enabled filter finds, if any.
    pub fn compute_jump(&self, i: usize, direction: Direction) -> (r: Option<usize>)
        requires
            self.wf(),
            !self.spec_filters().list()[0].spec_enabled() && direction == Direction::Next ==> i < usize::MAX,
        ensures
            !self.spec_filters().list()[0].spec_enabled() ==> r == match direction {
                Direction::Back => Some(sat_sub(i as int, 1) as usize),
                Direction::Next => Some((i + 1) as usize),
            },
            self.spec_filters().list()[0].spec_enabled() ==> r == match direction {
                Direction::Back => jump_back_over(self.spec_filters().list(), i),
                Direction::Next => jump_next_over(self.spec_filters().list(), i),
            },
    {
        proof {
            assert(self.filters.list()[0] == self.filters.all);
        }
        if !self.filters.all.is_enabled() {
            return match direction {
                Direction::Back => Some(i.saturating_sub(1)),
                Direction::Next => Some(i + 1),
            };
        }
        let n = self.filters.len();
        let ghost fs = self.filters.list();
        let mut acc: Option<usize> = None;
        let mut k: usize = 0;
        while k < n
            invariant
                k <= n == fs.len(),
                fs == self.filters.list(),
                self.filters.wf(),
                acc == match direction {
                    Direction::Back => jump_back_over(fs.take(k as int), i),
                    Direction::Next => jump_next_over(fs.take(k as int), i),
                },
            decreases n - k,
        {
            let f = self.filters.get(k).unwrap();
            proof {
                assert(fs.take(k + 1).drop_last() =~= fs.take(k as int));
                assert(fs.take(k + 1).last() == fs[k as int]);
                assert(f.wf());
            }
            if f.is_enabled() {
                match direction {
                    Direction::Back => {
                        if let Some(x) = f.nearest_backward(i) {
                            if x < i {
                                acc = match acc {
                                    Some(y) => Some(if x > y { x } else { y }),
                                    None => Some(x),
                                };
                            }
                        }
                    },
                    Direction::Next => {
                        if let Some(x) = f.nearest_forward(i) {
                            if x > i {
                                acc = match acc {
                                    Some(y) => Some(if x < y { x } else { y }),
                                    None => Some(x),
                                };
                            }
                        }
                    },
                }
            }
            k = k + 1;
        }
        proof {
            assert(fs.take(n as int) =~= fs);
        }
        acc
    }

    /// The set of lines the view shows: every line while the filter of
    /// every line is on; otherwise the composition of the enabled filters
    /// by the strategy.
    pub fn create_composite(&self) -> (r: LineSet)
        requires
            self.wf(),
        ensures
            r.wf(),
            self.spec_filters().list()[0].spec_enabled() ==> r.lines() == self.spec_all().lines(),
            !self.spec_filters().list()[0].spec_enabled() ==> {
                let l = active_lines(self.spec_filters().list());
                &&& l.len() == 0 ==> r.lines() == Seq::<usize>::empty()
                &&& l.len() > 0 && self.spec_strategy() == CompositeStrategy::Union ==> forall|x: usize|
                    #[trigger] r.lines().contains(x) <==> crate::lineset::in_any(l, x)
                &&& l.len() > 0 && self.spec_strategy() == CompositeStrategy::Intersection ==> forall|x: usize|
                    #[trigger] r.lines().contains(x) <==> crate::lineset::in_every(l, x)
            },
    {
        proof {
            assert(self.filters.list()[0] == self.filters.all);
        }
        if self.filters.all.is_enabled() {
            return self.all_composite.duplicate();
        }
        let n = self.filters.len();
        let ghost fs = self.filters.list();
        let mut sets: Vec<LineSet> = Vec::new();
        let mut k: usize = 0;
        while k < n
            invariant
                k <= n == fs.len(),
                fs == self.filters.list(),
                self.filters.wf(),
                forall|j: int| 0 <= j < sets@.len() ==> (#[trigger] sets@[j]).wf(),
                crate::lineset::lines_of(sets@) == active_lines(fs.take(k as int)),
            decreases n - k,
        {
            let f = self.filters.get(k).unwrap();
            proof {
                assert(fs.take(k + 1).drop_last() =~= fs.take(k as int));
                assert(fs.take(k + 1).last() == fs[k as int]);
                assert(f.wf());
            }
            if f.is_enabled() {
                let set = f.as_line_matches();
                let ghost before = sets@;
                sets.push(set);
                proof {
                    assert(crate::lineset::lines_of(sets@) =~= crate::lineset::lines_of(before).push(set.lines()));
                }
            }
            k = k + 1;
        }
        proof {
            assert(fs.take(n as int) =~= fs);
        }
        let ghost l = active_lines(fs);
        let ghost sets_view = sets@;
        match LineSet::compose(sets, false, self.strategy) {
            Ok(set) => {
                proof {
                    if sets_view.len() == 1 {
                        assert(crate::lineset::lines_of(sets_view)[0] == sets_view[0].lines());
                        assert forall|x: usize| #[trigger] set.lines().contains(x) <==> crate::lineset::in_any(l, x) by {
                            if crate::lineset::in_any(l, x) {
                                let q = choose|q: int| 0 <= q < l.len() && #[trigger] l[q].contains(x);
                                assert(q == 0);
                            }
                        }
                        assert forall|x: usize| #[trigger] set.lines().contains(x) <==> crate::lineset::in_every(l, x) by {
                            if set.lines().contains(x) {
                                assert forall|q: int| 0 <= q < l.len() implies #[trigger] l[q].contains(x) by {
                                    assert(q == 0);
                                }
                            }
                        }
                    }
                }
                set
            },
            Err(_) => LineSet::empty(),
        }
    }
}

impl<C: Copy> Compositor<String, C> {
    /// The filters the user added, as saved, in order.
    pub fn export_user_filters(&self) -> (r: Vec<FilterExport<C>>)
        requires
            self.wf(),
            forall|k: int|
                0 <= k < self.spec_filters().user_list().len() ==> (#[trigger] self.spec_filters().user_list()[k]).spec_data() is Search,
        ensures
            r@.len() == self.spec_filters().user_list().len(),
            forall|k: int|
                0 <= k < r@.len() ==> {
                    let f = self.spec_filters().user_list()[k];
                    &&& mask_text((#[trigger] r@[k]).mask) == f.spec_mask()@
                    &&& r@[k].enabled == f.spec_enabled()
                    &&& r@[k].color == f.spec_color()
                },
    {
        proof {
            self.lemma_wf();
            self.spec_filters().lemma_builtins();
        }
        let filters = &self.filters;
        let n = filters.len();
        let ghost user = filters.user_list();
        let mut out: Vec<FilterExport<C>> = Vec::new();
        let mut k: usize = 2;
        while k < n
            invariant
                2 <= k <= n == filters.list().len(),
                filters.wf(),
                user == filters.user_list(),
                filters.list() == seq![filters.list()[0], filters.list()[1]] + user,
                forall|j: int| 0 <= j < user.len() ==> (#[trigger] user[j]).spec_data() is Search,
                out@.len() == k - 2,
                forall|j: int|
                    0 <= j < out@.len() ==> {
                        let f = user[j];
                        &&& mask_text((#[trigger] out@[j]).mask) == f.spec_mask()@
                        &&& out@[j].enabled == f.spec_enabled()
                        &&& out@[j].color == f.spec_color()
                    },
            decreases n - k,
        {
            let f = filters.get(k).unwrap();
            proof {
                assert(filters.list()[k as int] == user[k - 2]);
            }
            out.push(f.to_export());
            k = k + 1;
        }
        out
    }
}

/// Filter `f` is the search filter the saved filter `e` stands for over the
/// lines of `buf`.
pub open spec fn imported<C>(f: Filter<String, C>, e: FilterExport<C>, buf: SegBuffer) -> bool {
    &&& f.wf()
    &&& f.spec_mask()@ == mask_text(e.mask)
    &&& f.spec_enabled() == e.enabled
    &&& f.spec_color() == e.color
    &&& f.spec_data() matches FilterData::Search(set) && set.completed() && Some(set.lines()) == search_spec(
        mask_text(e.mask),
        buf.contents(),
        buf.offsets(),
        0,
    )
}

/// The error a saved filter `e` gives over the lines of `buf`, if any.
pub open spec fn import_error<C>(e: FilterExport<C>, buf: SegBuffer) -> Option<SearchError> {
    if !regex_compiles(mask_text(e.mask)) {
        Some(SearchError::Invalid)
    } else if search_spec(mask_text(e.mask), buf.contents(), buf.offsets(), 0) is None {
        Some(SearchError::OffLine)
    } else {
        None
    }
}

/// Saving a search filter and loading what was saved over the same lines
/// gives back a filter with the same pattern, state, colour and lines.
pub proof fn law_export_then_import<C>(f: Filter<String, C>, e: FilterExport<C>, g: Filter<String, C>, buf: SegBuffer)
    requires
        f.spec_data() matches FilterData::Search(s) && Some(s.lines()) == search_spec(
            f.spec_mask()@,
            buf.contents(),
            buf.offsets(),
            0,
        ),
        mask_text(e.mask) == f.spec_mask()@,
        e.enabled == f.spec_enabled(),
        e.color == f.spec_color(),
        imported(g, e, buf),
    ensures
        g.spec_mask()@ == f.spec_mask()@,
        g.spec_enabled() == f.spec_enabled(),
        g.spec_color() == f.spec_color(),
        g.spec_data() matches FilterData::Search(t) && f.spec_data() matches FilterData::Search(s) && t.lines()
            == s.lines(),
{
}

impl<C: Copy> Compositor<String, C> {
    /// Adds the search filters that the saved filters `exports` stand for
    /// over the lines of `file`, in order, up to the first that gives an
    /// error.
    pub fn import_user_filters(&mut self, file: &SegBuffer, exports: Vec<FilterExport<C>>) -> (r: Result<(), SearchError>)
        requires
            old(self).wf(),
            file.wf(),
            old(self).spec_filters().list().len() + exports@.len() < usize::MAX,
        ensures
            final(self).wf(),
            final(self).spec_all() == old(self).spec_all(),
            final(self).spec_strategy() == old(self).spec_strategy(),
            final(self).spec_cursor() == old(self).spec_cursor(),
            ({
                let fs0 = old(self).spec_filters().list();
                let fs1 = final(self).spec_filters().list();
                let m = fs1.len() - fs0.len();
                &&& 0 <= m <= exports@.len()
                &&& forall|k: int| 0 <= k < fs0.len() ==> #[trigger] fs1[k] == fs0[k]
                &&& forall|j: int|
                    0 <= j < m ==> import_error(#[trigger] exports@[j], *file) is None
                        && imported(fs1[fs0.len() + j], exports@[j], *file)
                &&& r is Ok <==> m == exports@.len()
                &&& r matches Err(e) ==> import_error(exports@[m], *file) == Some(e)
            }),
    {
        let ghost fs0 = self.spec_filters().list();
        let n = exports.len();
        let mut exports = exports;
        let ghost all = exports@;
        let mut k: usize = 0;
        let mut result: Result<(), SearchError> = Ok(());
        while k < n
            invariant_except_break
                result is Ok,
                exports@ == all.skip(k as int),
            invariant
                k <= n == all.len(),
                file.wf(),
                self.wf(),
                self.spec_all() == old(self).spec_all(),
                self.spec_strategy() == old(self).spec_strategy(),
                self.spec_cursor() == old(self).spec_cursor(),
                fs0 == old(self).spec_filters().list(),
                fs0.len() + all.len() < usize::MAX,
                self.spec_filters().list().len() == fs0.len() + k,
                forall|i: int| 0 <= i < fs0.len() ==> #[trigger] self.spec_filters().list()[i] == fs0[i],
                forall|j: int|
                    0 <= j < k ==> import_error(#[trigger] all[j], *file) is None && imported(
                        self.spec_filters().list()[fs0.len() + j],
                        all[j],
                        *file,
                    ),
            ensures
                self.wf(),
                self.spec_all() == old(self).spec_all(),
                self.spec_strategy() == old(self).spec_strategy(),
                self.spec_cursor() == old(self).spec_cursor(),
                k <= n,
                self.spec_filters().list().len() == fs0.len() + k,
                forall|i: int| 0 <= i < fs0.len() ==> #[trigger] self.spec_filters().list()[i] == fs0[i],
                forall|j: int|
                    0 <= j < k ==> import_error(#[trigger] all[j], *file) is None && imported(
                        self.spec_filters().list()[fs0.len() + j],
                        all[j],
                        *file,
                    ),
                result is Ok <==> k == n,
                result matches Err(e) ==> import_error(all[k as int], *file) == Some(e),
            decreases n - k,
        {
            let export = exports.remove(0);
            proof {
                assert(export == all[k as int]);
                assert(exports@ =~= all.skip(k + 1));
            }
            match Filter::from_export(file, export) {
                Ok(filter) => {
                    let ghost before = self.spec_filters().list();
                    self.add_filter(filter);
                    proof {
                        let fs = self.spec_filters().list();
                        assert(fs[fs0.len() + k] == filter);
                        assert forall|j: int| 0 <= j < k implies import_error(#[trigger] all[j], *file) is None
                            && imported(fs[fs0.len() + j], all[j], *file) by {
                            assert(fs[fs0.len() + j] == before[fs0.len() + j]);
                        }
                        assert forall|i: int| 0 <= i < fs0.len() implies #[trigger] fs[i] == fs0[i] by {
                            assert(fs[i] == before[i]);
                        }
                    }
                },
                Err(e) => {
                    result = Err(e);
                    break;
                },
            }
            k = k + 1;
        }
        result
    }
}

impl Compositor<String, Color> {
    /// Adds a filter of the lines of `file` where `pattern` matches, as a
    /// regular expression or, when `literal` is set, as plain text, in the
    /// next colour of `colors`.
    pub fn add_search_filter(
        &mut self,
        file: &SegBuffer,
        pattern: &str,
        literal: bool,
        colors: &mut ColorSelector,
    ) -> (r: Result<(), SearchError>)
        requires
            old(self).wf(),
            file.wf(),
            old(colors).wf(),
            old(self).spec_filters().list().len() < usize::MAX,
        ensures
            final(colors).wf(),
            ({
                let text = if literal {
                    regex_escaped(pattern@)
                } else {
                    pattern@
                };
                let found = search_spec(text, file.contents(), file.offsets(), 0);
                &&& !regex_compiles(text) ==> r == Err::<(), SearchError>(SearchError::Invalid)
                    && *final(colors) == *old(colors) && *final(self) == *old(self)
                &&& regex_compiles(text) ==> *final(colors) == old(colors).stepped()
                &&& regex_compiles(text) && found is None ==> r == Err::<(), SearchError>(SearchError::OffLine)
                    && *final(self) == *old(self)
                &&& regex_compiles(text) && found is Some ==> {
                    let fs0 = old(self).spec_filters().list();
                    let fs1 = final(self).spec_filters().list();
                    &&& r is Ok
                    &&& final(self).wf()
                    &&& final(self).spec_all() == old(self).spec_all()
                    &&& final(self).spec_strategy() == old(self).spec_strategy()
                    &&& final(self).spec_cursor() == old(self).spec_cursor()
                    &&& fs1 == fs0.push(fs1.last())
                    &&& fs1.last().wf()
                    &&& fs1.last().spec_enabled()
                    &&& fs1.last().spec_mask()@ == text
                    &&& fs1.last().spec_color() == old(colors).color_of()
                    &&& fs1.last().spec_data() matches FilterData::Search(set) && set.completed()
                        && Some(set.lines()) == found
                }
            }),
    {
        let compiled = match Pattern::build(pattern, literal) {
            Ok(p) => p,
            Err(_) => return Err(SearchError::Invalid),
        };
        let color = colors.next_color();
        let data = file.all_bytes();
        let lines = match LineSet::search(file.index(), data.as_slice(), &compiled) {
            Some(lines) => lines,
            None => return Err(SearchError::OffLine),
        };
        let mask = String::from_str(compiled.as_str());
        let filter = Filter::from_filter(mask, color, FilterData::Search(lines));
        self.add_filter(filter);
        Ok(())
    }
}

} // verus!
