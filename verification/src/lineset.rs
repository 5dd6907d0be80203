use vstd::prelude::*;

use crate::cowvec::CowVecSnapshot;
use crate::err::Error;
use crate::line_index::LineIndex;
use crate::node::{count_less, lemma_count_less_sorted, sorted_strict};

verus! {

/// How several line sets are combined into one.
#[derive(Clone, Copy, Debug, PartialEq, Eq, Structural)]
pub enum CompositeStrategy {
    /// The lines every set holds.
    Intersection,
    /// The lines any set holds.
    Union,
}

/// A set of line numbers: either every line of an index, or an ascending
/// list of chosen lines.
pub enum LineSet {
    /// Every line of the index.
    All { buf: LineIndex },
    /// The lines listed, ascending.
    Subset {
        buf: Vec<usize>,
        completed: bool,
        /// The least length the set reports, which a union of sets takes
        /// from its largest member.
        min_len: usize,
    },
}

/// Whether some sequence of `ls` holds `x`.
pub open spec fn in_any(ls: Seq<Seq<usize>>, x: usize) -> bool {
    exists|q: int| 0 <= q < ls.len() && #[trigger] ls[q].contains(x)
}

/// Whether every sequence of `ls` holds `x`.
pub open spec fn in_every(ls: Seq<Seq<usize>>, x: usize) -> bool {
    forall|q: int| 0 <= q < ls.len() ==> #[trigger] ls[q].contains(x)
}

/// The line numbers `0..n`.
pub open spec fn first_lines(n: nat) -> Seq<usize> {
    Seq::new(n, |i: int| i as usize)
}

/// The least item of `s` above `v`, or the last item if none is.
pub open spec fn is_nearest_forward(s: Seq<usize>, v: usize, x: usize) -> bool {
    &&& s.contains(x)
    &&& if exists|i: int| 0 <= i < s.len() && s[i] > v {
        x > v && forall|i: int| 0 <= i < s.len() && s[i] > v ==> x <= s[i]
    } else {
        x == s.last()
    }
}

/// The greatest item of `s` below `v`, or the first item if none is.
pub open spec fn is_nearest_backward(s: Seq<usize>, v: usize, x: usize) -> bool {
    &&& s.contains(x)
    &&& if exists|i: int| 0 <= i < s.len() && s[i] < v {
        x < v && forall|i: int| 0 <= i < s.len() && s[i] < v ==> x >= s[i]
    } else {
        x == s[0]
    }
}

/// The item a forward search from `v` in the ascending items `s` picks:
/// the first item above `v`, or the last item when none is above it.
pub open spec fn forward_pick(s: Seq<usize>, v: usize) -> Option<usize> {
    if s.len() == 0 {
        None
    } else {
        let p = if s.contains(v) {
            count_less(s, v) + 1int
        } else {
            count_less(s, v) as int
        };
        Some(s[if p < s.len() { p } else { s.len() - 1 }])
    }
}

/// The item a backward search from `v` in the ascending items `s` picks:
/// the last item below `v`, or the first item when none is below it.
pub open spec fn backward_pick(s: Seq<usize>, v: usize) -> Option<usize> {
    if s.len() == 0 {
        None
    } else {
        Some(s[if count_less(s, v) > 0 { count_less(s, v) - 1 } else { 0 }])
    }
}

/// The line a forward search from `v` in `set` finds: for every line of an
/// index the next line, or the line count for the last, or none past the
/// end; for a subset its forward pick.
pub open spec fn set_forward(set: LineSet, v: usize) -> Option<usize> {
    match set {
        LineSet::All { buf } => if v < buf.num_lines() {
            Some((v + 1) as usize)
        } else {
            None
        },
        LineSet::Subset { buf, .. } => forward_pick(buf@, v),
    }
}

/// The line a backward search from `v` in `set` finds: for every line of
/// an index the previous line, or none at zero; for a subset its backward
/// pick.
pub open spec fn set_backward(set: LineSet, v: usize) -> Option<usize> {
    match set {
        LineSet::All { .. } => if v > 0 {
            Some((v - 1) as usize)
        } else {
            None
        },
        LineSet::Subset { buf, .. } => backward_pick(buf@, v),
    }
}

/// The sets of lines of each of `sets`.
pub open spec fn lines_of(sets: Seq<LineSet>) -> Seq<Seq<usize>> {
    sets.map_values(|s: LineSet| s.lines())
}

/// The number of items of a sorted sequence that are smaller than `v`.
fn partition_less(s: &[usize], v: usize) -> (r: usize)
    requires
        sorted_strict(s@),
    ensures
        r == count_less(s@, v),
{
    let mut lo: usize = 0;
    let mut hi: usize = s.len();
    while lo < hi
        invariant
            lo <= hi <= s@.len(),
            forall|i: int| 0 <= i < lo ==> s@[i] < v,
            forall|i: int| hi <= i < s@.len() ==> s@[i] >= v,
            sorted_strict(s@),
        decreases hi - lo,
    {
        let mid = lo + (hi - lo) / 2;
        if s[mid] < v {
            lo = mid + 1;
        } else {
            hi = mid;
        }
    }
    proof {
        crate::node::lemma_count_less_unique(s@, v, lo as int);
    }
    lo
}

impl LineSet {
    /// The lines of the set, ascending.
    pub open spec fn lines(&self) -> Seq<usize> {
        match self {
            LineSet::All { buf } => first_lines(buf.num_lines()),
            LineSet::Subset { buf, .. } => buf@,
        }
    }

    /// The index of an `All` set is well formed; the lines of a `Subset`
    /// ascend strictly.
    pub open spec fn wf(&self) -> bool {
        match self {
            LineSet::All { buf } => buf.wf(),
            LineSet::Subset { buf, .. } => sorted_strict(buf@),
        }
    }

    /// The length the set reports.
    pub open spec fn spec_len(&self) -> nat {
        match self {
            LineSet::All { buf } => buf.num_lines(),
            LineSet::Subset { buf, min_len, .. } => if buf@.len() >= *min_len {
                buf@.len()
            } else {
                *min_len as nat
            },
        }
    }

    /// Whether the producer of the set has finished.
    pub open spec fn completed(&self) -> bool {
        match self {
            LineSet::All { buf } => buf.completed(),
            LineSet::Subset { completed, .. } => *completed,
        }
    }

    /// The lines of a well-formed set ascend strictly and fit a `usize`.
    pub proof fn lemma_lines_sorted(&self)
        requires
            self.wf(),
        ensures
            sorted_strict(self.lines()),
            self.lines().len() <= usize::MAX,
    {
        match self {
            LineSet::All { buf } => {
                buf.lemma_len_fits();
            },
            LineSet::Subset { buf, .. } => {
                assert(buf@.len() == buf.len());
            },
        }
    }

    /// The empty set, complete.
    pub fn empty() -> (r: Self)
        ensures
            r.wf(),
            r.lines() == Seq::<usize>::empty(),
            r.spec_len() == 0,
            r.completed(),
            r is Subset,
    {
        LineSet::Subset { buf: Vec::new(), completed: true, min_len: 0 }
    }

    /// Every line of `buf`.
    pub fn all(buf: LineIndex) -> (r: Self)
        ensures
            r == (LineSet::All { buf }),
    {
        LineSet::All { buf }
    }

    /// Whether the set holds every line of an index.
    pub fn is_all(&self) -> (r: bool)
        ensures
            r == (self is All),
    {
        match self {
            LineSet::All { .. } => true,
            LineSet::Subset { .. } => false,
        }
    }

    /// Whether the producer of the set has finished.
    pub fn is_complete(&self) -> (r: bool)
        ensures
            r == self.completed(),
    {
        match self {
            LineSet::All { buf } => buf.is_complete(),
            LineSet::Subset { completed, .. } => *completed,
        }
    }

    /// The line at position `idx` of the set.
    pub fn get(&self, idx: usize) -> (r: Option<usize>)
        requires
            self.wf(),
        ensures
            r == (if idx < self.lines().len() {
                Some(self.lines()[idx as int])
            } else {
                None::<usize>
            }),
    {
        match self {
            LineSet::All { buf } => {
                if idx < buf.line_count() {
                    Some(idx)
                } else {
                    None
                }
            },
            LineSet::Subset { buf, .. } => {
                if idx < buf.len() {
                    Some(buf[idx])
                } else {
                    None
                }
            },
        }
    }

    /// The position of `line_number` in the set, if the set holds it.
    pub fn find(&self, line_number: usize) -> (r: Option<usize>)
        requires
            self.wf(),
        ensures
            r matches Some(i) ==> i < self.lines().len() && self.lines()[i as int] == line_number,
            r is None ==> !self.lines().contains(line_number),
    {
        match self {
            LineSet::All { buf } => {
                if line_number < buf.line_count() {
                    Some(line_number)
                } else {
                    None
                }
            },
            LineSet::Subset { buf, .. } => {
                let slice = buf.as_slice();
                let i = partition_less(slice, line_number);
                proof {
                    lemma_count_less_sorted(buf@, line_number);
                }
                if i < slice.len() && slice[i] == line_number {
                    Some(i)
                } else {
                    None
                }
            },
        }
    }

    /// Whether the set holds `line_number`.
    pub fn has_line(&self, line_number: usize) -> (r: bool)
        requires
            self.wf(),
        ensures
            r == self.lines().contains(line_number),
    {
        self.find(line_number).is_some()
    }

    /// For every line of an index: the next line, or the line count for the
    /// last line, or `None` past the end. For a subset: the first line after
    /// `line_number`, or the last line when none follows; `None` when the
    /// set is empty.
    pub fn nearest_forward(&self, line_number: usize) -> (r: Option<usize>)
        requires
            self.wf(),
        ensures
            self is All ==> r == (if line_number < self.lines().len() {
                Some((line_number + 1) as usize)
            } else {
                None::<usize>
            }),
            self is Subset ==> (r is None <==> self.lines().len() == 0),
            self is Subset ==> (r matches Some(x) ==> is_nearest_forward(
                self.lines(),
                line_number,
                x,
            )),
            self is Subset ==> r == forward_pick(self.lines(), line_number),
            r == set_forward(*self, line_number),
    {
        match self {
            LineSet::All { buf } => {
                let count = buf.line_count();
                if line_number < count {
                    let next = line_number + 1;
                    Some(if next < count {
                        next
                    } else {
                        count
                    })
                } else {
                    None
                }
            },
            LineSet::Subset { buf, .. } => {
                let slice = buf.as_slice();
                if slice.len() == 0 {
                    return None;
                }
                let i = partition_less(slice, line_number);
                proof {
                    lemma_count_less_sorted(buf@, line_number);
                }
                let pos = if i < slice.len() && slice[i] == line_number {
                    i + 1
                } else {
                    i
                };
                let at = if pos < slice.len() {
                    pos
                } else {
                    slice.len() - 1
                };
                let x = slice[at];
                proof {
                    let s = buf@;
                    assert(s.contains(x)) by {
                        assert(s[at as int] == x);
                    }
                    if exists|k: int| 0 <= k < s.len() && s[k] > line_number {
                        let k = choose|k: int| 0 <= k < s.len() && s[k] > line_number;
                        assert(pos <= k) by {
                            if pos > k {
                                assert(s[k] <= line_number);
                            }
                        }
                        assert forall|j: int| 0 <= j < s.len() && s[j] > line_number implies x
                            <= s[j] by {
                            if j < pos {
                                assert(s[j] <= line_number);
                            }
                        }
                    } else {
                        if pos < s.len() {
                            assert(s[pos as int] > line_number);
                        }
                    }
                }
                Some(x)
            },
        }
    }

    /// For every line of an index: the previous line, or `None` at line
    /// zero. For a subset: the last line before `line_number`, or the first
    /// line when none precedes; `None` when the set is empty.
    pub fn nearest_backward(&self, line_number: usize) -> (r: Option<usize>)
        requires
            self.wf(),
        ensures
            self is All ==> r == (if line_number > 0 {
                Some((line_number - 1) as usize)
            } else {
                None::<usize>
            }),
            self is Subset ==> (r is None <==> self.lines().len() == 0),
            self is Subset ==> (r matches Some(x) ==> is_nearest_backward(
                self.lines(),
                line_number,
                x,
            )),
            self is Subset ==> r == backward_pick(self.lines(), line_number),
            r == set_backward(*self, line_number),
    {
        match self {
            LineSet::All { .. } => line_number.checked_sub(1),
            LineSet::Subset { buf, .. } => {
                let slice = buf.as_slice();
                if slice.len() == 0 {
                    return None;
                }
                let i = partition_less(slice, line_number);
                proof {
                    lemma_count_less_sorted(buf@, line_number);
                }
                let before = if i > 0 {
                    i - 1
                } else {
                    0
                };
                let at = if before < slice.len() {
                    before
                } else {
                    slice.len() - 1
                };
                let x = slice[at];
                proof {
                    let s = buf@;
                    assert(s.contains(x)) by {
                        assert(s[at as int] == x);
                    }
                    if exists|k: int| 0 <= k < s.len() && s[k] < line_number {
                        let k = choose|k: int| 0 <= k < s.len() && s[k] < line_number;
                        assert(i > k);
                        assert forall|j: int| 0 <= j < s.len() && s[j] < line_number implies x
                            >= s[j] by {
                            if j >= i {
                                assert(s[j] >= line_number);
                            }
                        }
                    } else {
                        if i > 0 {
                            assert(s[0] < line_number);
                        }
                    }
                }
                Some(x)
            },
        }
    }

    /// The length the set reports: the line count of an index, or for a
    /// subset the larger of its line count and its least length.
    pub fn len(&self) -> (r: usize)
        requires
            self.wf(),
        ensures
            r == self.spec_len(),
    {
        match self {
            LineSet::All { buf } => buf.line_count(),
            LineSet::Subset { buf, min_len, .. } => {
                let n = buf.len();
                if n >= *min_len {
                    n
                } else {
                    *min_len
                }
            },
        }
    }

    /// Whether the reported length is zero.
    pub fn is_empty(&self) -> (r: bool)
        requires
            self.wf(),
        ensures
            r == (self.spec_len() == 0),
    {
        self.len() == 0
    }

    /// A copy of the lines of a subset; `None` for every line of an index.
    pub fn snapshot(&self) -> (r: Option<CowVecSnapshot<usize>>)
        ensures
            self is All ==> r is None,
            self is Subset ==> (r matches Some(snap) && snap.items() == self.lines()),
    {
        match self {
            LineSet::All { .. } => None,
            LineSet::Subset { buf, .. } => Some(CowVecSnapshot::from_vec(buf.clone())),
        }
    }

    /// A copy of the set.
    pub fn duplicate(&self) -> (r: Self)
        requires
            self.wf(),
        ensures
            r.wf(),
            r.lines() == self.lines(),
            r.spec_len() == self.spec_len(),
            r.completed() == self.completed(),
            r is All <==> self is All,
    {
        match self {
            LineSet::All { buf } => LineSet::All { buf: buf.duplicate() },
            LineSet::Subset { buf, completed, min_len } => {
                let mut copy: Vec<usize> = Vec::new();
                let mut i: usize = 0;
                while i < buf.len()
                    invariant
                        i <= buf@.len(),
                        copy@ == buf@.take(i as int),
                    decreases buf@.len() - i,
                {
                    copy.push(buf[i]);
                    i = i + 1;
                    proof {
                        assert(copy@ =~= buf@.take(i as int));
                    }
                }
                proof {
                    assert(copy@ =~= buf@);
                }
                LineSet::Subset { buf: copy, completed: *completed, min_len: *min_len }
            },
        }
    }

    /// The lines of a subset.
    pub fn into_inner(self) -> (r: CowVecSnapshot<usize>)
        requires
            self is Subset,
        ensures
            r.items() == self.lines(),
    {
        match self {
            LineSet::Subset { buf, .. } => CowVecSnapshot::from_vec(buf),
            LineSet::All { .. } => CowVecSnapshot::from_vec(Vec::new()),
        }
    }
}

/// The lines each queue has yielded: the first `idx[q]` lines of set `q`.
spec fn taken_of(ls: Seq<Seq<usize>>, idx: Seq<usize>) -> Seq<Seq<usize>> {
    Seq::new(ls.len(), |q: int| ls[q].take(idx[q] as int))
}

/// The number of lines the queues have yet to yield.
spec fn pending_of(ls: Seq<Seq<usize>>, idx: Seq<usize>) -> int
    decreases ls.len(),
{
    if ls.len() == 0 || idx.len() == 0 {
        0
    } else {
        pending_of(ls.drop_last(), idx.drop_last()) + ls.last().len() - idx.last()
    }
}

/// `e` with `m` appended, unless `m` is already its last item.
pub open spec fn push_new(e: Seq<usize>, m: usize) -> Seq<usize> {
    if e.len() > 0 && e.last() == m {
        e
    } else {
        e.push(m)
    }
}

/// The larger of the reported lengths of `sets`, zero for none.
pub open spec fn max_len_of(sets: Seq<LineSet>) -> nat
    decreases sets.len(),
{
    if sets.len() == 0 {
        0
    } else {
        let rest = max_len_of(sets.drop_last());
        if sets.last().spec_len() > rest {
            sets.last().spec_len()
        } else {
            rest
        }
    }
}

proof fn lemma_pending_advance(ls: Seq<Seq<usize>>, idx: Seq<usize>, q: int)
    requires
        ls.len() == idx.len(),
        0 <= q < ls.len(),
        idx[q] < ls[q].len(),
        ls[q].len() <= usize::MAX,
    ensures
        pending_of(ls, idx.update(q, (idx[q] + 1) as usize)) == pending_of(ls, idx) - 1,
    decreases ls.len(),
{
    let idx2 = idx.update(q, (idx[q] + 1) as usize);
    assert(idx2.len() == idx.len());
    if q == ls.len() - 1 {
        assert(idx2.drop_last() =~= idx.drop_last());
        assert(idx2.last() == idx[q] + 1);
    } else {
        let d = idx.drop_last();
        assert(ls.drop_last()[q] == ls[q]);
        assert(d[q] == idx[q]);
        assert(idx2.drop_last() =~= d.update(q, (d[q] + 1) as usize));
        assert(idx2.last() == idx.last());
        lemma_pending_advance(ls.drop_last(), d, q);
    }
}

proof fn lemma_pending_nonneg(ls: Seq<Seq<usize>>, idx: Seq<usize>)
    requires
        ls.len() == idx.len(),
        forall|q: int| 0 <= q < ls.len() ==> idx[q] <= ls[q].len(),
    ensures
        pending_of(ls, idx) >= 0,
    decreases ls.len(),
{
    if ls.len() > 0 {
        lemma_pending_nonneg(ls.drop_last(), idx.drop_last());
    }
}

/// Taking one more item of `s` adds exactly that item.
proof fn lemma_take_advance(s: Seq<usize>, i: int)
    requires
        0 <= i < s.len(),
    ensures
        forall|x: usize| #[trigger] s.take(i + 1).contains(x) <==> (s.take(i).contains(x) || x == s[i]),
{
    let t = s.take(i);
    assert(s.take(i + 1) =~= t.push(s[i]));
    assert forall|x: usize| #[trigger] s.take(i + 1).contains(x) <==> (t.contains(x) || x == s[i]) by {
        if t.push(s[i]).contains(x) {
            let k = choose|k: int| 0 <= k < i + 1 && t.push(s[i])[k] == x;
            if k < i {
                assert(t[k] == x);
            }
        }
        if t.contains(x) {
            let k = choose|k: int| 0 <= k < t.len() && t[k] == x;
            assert(t.push(s[i])[k] == x);
        }
        if x == s[i] {
            assert(t.push(s[i])[i] == x);
        }
    }
}

/// Skipping one more item of `s` drops exactly that item.
proof fn lemma_skip_advance(s: Seq<usize>, i: int)
    requires
        0 <= i < s.len(),
        sorted_strict(s),
    ensures
        forall|x: usize| #[trigger] s.skip(i).contains(x) <==> (s.skip(i + 1).contains(x) || x == s[i]),
        !s.skip(i + 1).contains(s[i]),
{
    let t = s.skip(i + 1);
    assert(s.skip(i) =~= seq![s[i]] + t);
    assert forall|x: usize| #[trigger] s.skip(i).contains(x) <==> (t.contains(x) || x == s[i]) by {
        let u = seq![s[i]] + t;
        if u.contains(x) {
            let k = choose|k: int| 0 <= k < u.len() && u[k] == x;
            if k > 0 {
                assert(t[k - 1] == x);
            }
        }
        if t.contains(x) {
            let k = choose|k: int| 0 <= k < t.len() && t[k] == x;
            assert(u[k + 1] == x);
        }
        if x == s[i] {
            assert(u[0] == x);
        }
    }
    if t.contains(s[i]) {
        let k = choose|k: int| 0 <= k < t.len() && t[k] == s[i];
        assert(s[i + 1 + k] == s[i]);
    }
}

/// What follows position `i` of a sorted sequence is no smaller than the
/// item there.
proof fn lemma_skip_bound(s: Seq<usize>, i: int, x: usize)
    requires
        0 <= i <= s.len(),
        sorted_strict(s),
        s.skip(i).contains(x),
    ensures
        i < s.len(),
        s[i] <= x,
{
    let k = choose|k: int| 0 <= k < s.skip(i).len() && s.skip(i)[k] == x;
    assert(s[i + k] == x);
}

/// The sets a composition draws from, each with the position of the next
/// line it has not yet yielded.
struct Queues {
    sets: Vec<LineSet>,
    indices: Vec<usize>,
    strategy: CompositeStrategy,
}

impl Queues {
    spec fn ls(&self) -> Seq<Seq<usize>> {
        lines_of(self.sets@)
    }

    spec fn wf(&self) -> bool {
        &&& self.sets@.len() == self.indices@.len()
        &&& self.sets@.len() > 0
        &&& forall|q: int|
            0 <= q < self.sets@.len() ==> {
                &&& (#[trigger] self.sets@[q]).wf()
                &&& self.indices@[q] <= self.sets@[q].lines().len()
                &&& sorted_strict(self.sets@[q].lines())
                &&& self.sets@[q].lines().len() <= usize::MAX
            }
    }

    spec fn pending(&self) -> int {
        pending_of(self.ls(), self.indices@)
    }

    /// Every queue has yielded all its lines.
    spec fn exhausted(&self) -> bool {
        forall|q: int| 0 <= q < self.sets@.len() ==> self.indices@[q] == #[trigger] self.ls()[q].len()
    }

    /// `x` is still to come from every queue.
    spec fn remains_everywhere(&self, x: usize) -> bool {
        forall|q: int|
            0 <= q < self.sets@.len() ==> #[trigger] self.ls()[q].skip(self.indices@[q] as int).contains(x)
    }

    /// The last line put out is no larger than any line still to come.
    spec fn bounded(&self, e: Seq<usize>) -> bool {
        forall|q: int, j: int|
            0 <= q < self.sets@.len() && self.indices@[q] <= j < self.ls()[q].len() && e.len() > 0
                ==> e.last() <= #[trigger] self.ls()[q][j]
    }

    /// `e` holds, ascending, exactly the lines taken so far.
    spec fn union_inv(&self, e: Seq<usize>) -> bool {
        &&& sorted_strict(e)
        &&& forall|x: usize| #[trigger] e.contains(x) <==> in_any(taken_of(self.ls(), self.indices@), x)
        &&& self.bounded(e)
    }

    /// `e` holds, ascending, lines every set holds, and every line all sets
    /// hold that `e` lacks is still to come from each queue.
    spec fn inter_inv(&self, e: Seq<usize>) -> bool {
        &&& sorted_strict(e)
        &&& forall|x: usize| #[trigger] e.contains(x) ==> in_every(self.ls(), x)
        &&& forall|x: usize|
            #[trigger] in_every(self.ls(), x) && !e.contains(x) ==> self.remains_everywhere(x)
        &&& self.bounded(e)
    }

    spec fn inv(&self, e: Seq<usize>) -> bool {
        match self.strategy {
            CompositeStrategy::Union => self.union_inv(e),
            CompositeStrategy::Intersection => self.inter_inv(e),
        }
    }

    /// The next line queue `q` would yield.
    fn peek(&self, q: usize) -> (r: Option<usize>)
        requires
            self.wf(),
            q < self.sets@.len(),
        ensures
            r == (if self.indices@[q as int] < self.ls()[q as int].len() {
                Some(self.ls()[q as int][self.indices@[q as int] as int])
            } else {
                None::<usize>
            }),
    {
        self.sets[q].get(self.indices[q])
    }

    /// Moves queue `q` past its next line.
    fn advance(&mut self, q: usize)
        requires
            old(self).wf(),
            q < old(self).sets@.len(),
            old(self).indices@[q as int] < old(self).ls()[q as int].len(),
        ensures
            final(self).wf(),
            final(self).sets@ == old(self).sets@,
            final(self).strategy == old(self).strategy,
            final(self).indices@ == old(self).indices@.update(q as int, (old(self).indices@[q as int] + 1) as usize),
            final(self).pending() == old(self).pending() - 1,
            final(self).pending() >= 0,
    {
        let i = self.indices[q];
        self.indices.set(q, i + 1);
        proof {
            lemma_pending_advance(self.ls(), old(self).indices@, q as int);
            lemma_pending_nonneg(self.ls(), self.indices@);
        }
    }

    /// Queues over `sets`, none of which has yielded a line.
    fn new(sets: Vec<LineSet>, strategy: CompositeStrategy) -> (r: Self)
        requires
            sets@.len() > 0,
            forall|i: int| 0 <= i < sets@.len() ==> #[trigger] sets@[i].wf(),
        ensures
            r.wf(),
            r.sets@ == sets@,
            r.strategy == strategy,
            r.inv(Seq::empty()),
            r.pending() >= 0,
    {
        let n = sets.len();
        let mut indices: Vec<usize> = Vec::new();
        let mut i: usize = 0;
        while i < n
            invariant
                i <= n,
                indices@.len() == i,
                forall|j: int| 0 <= j < i ==> indices@[j] == 0,
            decreases n - i,
        {
            indices.push(0);
            i += 1;
        }
        let r = Queues { sets, indices, strategy };
        proof {
            assert forall|q: int| 0 <= q < r.sets@.len() implies {
                &&& (#[trigger] r.sets@[q]).wf()
                &&& r.indices@[q] <= r.sets@[q].lines().len()
                &&& sorted_strict(r.sets@[q].lines())
                &&& r.sets@[q].lines().len() <= usize::MAX
            } by {
                r.sets@[q].lemma_lines_sorted();
            }
            lemma_pending_nonneg(r.ls(), r.indices@);
            let e = Seq::<usize>::empty();
            let ls = r.ls();
            assert forall|x: usize| #[trigger] e.contains(x) <==> in_any(taken_of(ls, r.indices@), x) by {
                let t = taken_of(ls, r.indices@);
                if in_any(t, x) {
                    let q = choose|q: int| 0 <= q < t.len() && #[trigger] t[q].contains(x);
                    assert(t[q].len() == 0);
                }
            }
            assert forall|x: usize| #[trigger] in_every(ls, x) && !e.contains(x)
                implies r.remains_everywhere(x) by {
                assert forall|q: int| 0 <= q < r.sets@.len()
                    implies #[trigger] ls[q].skip(r.indices@[q] as int).contains(x) by {
                    assert(ls[q].skip(0) =~= ls[q]);
                    assert(ls[q].contains(x));
                }
            }
        }
        r
    }

    /// Yields the next line of the composition, as the strategy decides.
    fn take_lowest(&mut self, Ghost(e): Ghost<Seq<usize>>) -> (r: Option<usize>)
        requires
            old(self).wf(),
            old(self).inv(e),
        ensures
            final(self).wf(),
            final(self).sets@ == old(self).sets@,
            final(self).strategy == old(self).strategy,
            r is None ==> final(self).exhausted() && final(self).inv(e),
            r matches Some(m) ==> {
                &&& final(self).pending() < old(self).pending()
                &&& final(self).inv(push_new(e, m))
                &&& (e.len() > 0 ==> e.last() <= m)
            },
            final(self).pending() >= 0,
    {
        match self.strategy {
            CompositeStrategy::Union => self.take_lowest_union(Ghost(e)),
            CompositeStrategy::Intersection => self.take_lowest_intersection(Ghost(e)),
        }
    }

    /// Moves queue `p` past every line below `m`, where `m` is the next line
    /// of queue `bq`.
    fn skip_below(&mut self, p: usize, bq: usize, m: usize, Ghost(e): Ghost<Seq<usize>>)
        requires
            old(self).wf(),
            old(self).inter_inv(e),
            p < old(self).sets@.len(),
            bq < old(self).sets@.len(),
            old(self).indices@[bq as int] < old(self).ls()[bq as int].len(),
            old(self).ls()[bq as int][old(self).indices@[bq as int] as int] == m,
        ensures
            final(self).wf(),
            final(self).inter_inv(e),
            final(self).sets@ == old(self).sets@,
            final(self).strategy == old(self).strategy,
            final(self).pending() <= old(self).pending(),
            forall|r: int| 0 <= r < final(self).sets@.len() && r != p ==> final(self).indices@[r] == old(self).indices@[r],
            final(self).indices@[bq as int] == old(self).indices@[bq as int],
            final(self).indices@[p as int] >= final(self).ls()[p as int].len()
                || final(self).ls()[p as int][final(self).indices@[p as int] as int] >= m,
    {
        proof {
            lemma_pending_nonneg(self.ls(), self.indices@);
        }
        let ghost start = self.indices@;
        let ghost start_pending = self.pending();
        loop
            invariant
                self.wf(),
                self.inter_inv(e),
                self.sets@ == old(self).sets@,
                self.strategy == old(self).strategy,
                p < self.sets@.len(),
                bq < self.sets@.len(),
                self.indices@[bq as int] < self.ls()[bq as int].len(),
                self.ls()[bq as int][self.indices@[bq as int] as int] == m,
                self.pending() <= start_pending,
                start_pending == old(self).pending(),
                self.indices@.len() == start.len(),
                forall|r: int| 0 <= r < self.sets@.len() && r != p ==> self.indices@[r] == start[r],
                self.indices@[bq as int] == start[bq as int],
            ensures
                self.wf(),
                self.inter_inv(e),
                self.sets@ == old(self).sets@,
                self.strategy == old(self).strategy,
                self.pending() <= start_pending,
                forall|r: int| 0 <= r < self.sets@.len() && r != p ==> self.indices@[r] == start[r],
                self.indices@[bq as int] == start[bq as int],
                self.indices@[p as int] >= self.ls()[p as int].len()
                    || self.ls()[p as int][self.indices@[p as int] as int] >= m,
            decreases self.ls()[p as int].len() - self.indices@[p as int],
        {
            match self.peek(p) {
                Some(ln) => {
                    if ln < m {
                        let ghost ls = self.ls();
                        let ghost idx = self.indices@;
                        proof {
                            lemma_skip_advance(ls[p as int], idx[p as int] as int);
                        }
                        self.advance(p);
                        proof {
                            let idx2 = self.indices@;
                            assert forall|x: usize| #[trigger] in_every(ls, x) && !e.contains(x)
                                implies self.remains_everywhere(x) by {
                                assert forall|q: int| 0 <= q < self.sets@.len()
                                    implies #[trigger] ls[q].skip(idx2[q] as int).contains(x) by {
                                    assert(ls[q].skip(idx[q] as int).contains(x));
                                    if q == p {
                                        if x == ln {
                                            assert(ls[bq as int].skip(idx[bq as int] as int).contains(x));
                                            lemma_skip_bound(ls[bq as int], idx[bq as int] as int, x);
                                        }
                                    }
                                }
                            }
                        }
                    } else {
                        break;
                    }
                },
                None => {
                    break;
                },
            }
        }
    }

    /// Yields the next line every queue holds, moving the queues past the
    /// lines not all of them hold; `None` once a queue can hold no more.
    fn take_lowest_intersection(&mut self, Ghost(e): Ghost<Seq<usize>>) -> (r: Option<usize>)
        requires
            old(self).wf(),
            old(self).inter_inv(e),
        ensures
            final(self).wf(),
            final(self).sets@ == old(self).sets@,
            final(self).strategy == old(self).strategy,
            r is None ==> final(self).exhausted() && final(self).inter_inv(e),
            r matches Some(m) ==> {
                &&& final(self).pending() < old(self).pending()
                &&& final(self).inter_inv(push_new(e, m))
                &&& (e.len() > 0 ==> e.last() <= m)
            },
            final(self).pending() >= 0,
    {
        proof {
            lemma_pending_nonneg(self.ls(), self.indices@);
        }
        let ghost start_pending = self.pending();
        let n = self.sets.len();
        loop
            invariant
                self.wf(),
                self.inter_inv(e),
                self.sets@ == old(self).sets@,
                self.strategy == old(self).strategy,
                n == self.sets@.len(),
                self.pending() <= start_pending,
                start_pending == old(self).pending(),
                self.pending() >= 0,
            decreases self.pending(),
        {
            let ghost iter_pending = self.pending();
            let mut best: Option<(usize, usize)> = None;
            let mut q: usize = 0;
            while q < n
                invariant
                    self.wf(),
                    n == self.sets@.len(),
                    q <= n,
                    best is None ==> forall|p: int| 0 <= p < q ==> self.indices@[p] >= #[trigger] self.ls()[p].len(),
                    best matches Some(b) ==> {
                        &&& b.0 < q
                        &&& self.indices@[b.0 as int] < self.ls()[b.0 as int].len()
                        &&& self.ls()[b.0 as int][self.indices@[b.0 as int] as int] == b.1
                    },
                decreases n - q,
            {
                match self.peek(q) {
                    Some(v) => {
                        match best {
                            None => {
                                best = Some((q, v));
                            },
                            Some(b) => {
                                if v >= b.1 {
                                    best = Some((q, v));
                                }
                            },
                        }
                    },
                    None => {},
                }
                q += 1;
            }
            let (bq, m) = match best {
                None => {
                    return None;
                },
                Some(b) => b,
            };
            let mut p: usize = 0;
            while p < n
                invariant
                    self.wf(),
                    self.inter_inv(e),
                    self.sets@ == old(self).sets@,
                    self.strategy == old(self).strategy,
                    n == self.sets@.len(),
                    p <= n,
                    bq < n,
                    self.indices@[bq as int] < self.ls()[bq as int].len(),
                    self.ls()[bq as int][self.indices@[bq as int] as int] == m,
                    self.pending() <= iter_pending,
                    iter_pending <= start_pending,
                    start_pending == old(self).pending(),
                    forall|r: int|
                        0 <= r < p ==> self.indices@[r] >= #[trigger] self.ls()[r].len()
                            || self.ls()[r][self.indices@[r] as int] >= m,
                decreases n - p,
            {
                self.skip_below(p, bq, m, Ghost(e));
                p += 1;
            }
            let mut mismatch: Option<usize> = None;
            let mut k: usize = 0;
            while k < n && mismatch.is_none()
                invariant
                    self.wf(),
                    n == self.sets@.len(),
                    k <= n,
                    mismatch is None ==> forall|r: int|
                        0 <= r < k ==> self.indices@[r] < #[trigger] self.ls()[r].len()
                            && self.ls()[r][self.indices@[r] as int] == m,
                    mismatch matches Some(b) ==> b < n && !(self.indices@[b as int] < self.ls()[b as int].len()
                        && self.ls()[b as int][self.indices@[b as int] as int] == m),
                decreases n - k,
            {
                match self.peek(k) {
                    Some(v) => {
                        if v != m {
                            mismatch = Some(k);
                        }
                    },
                    None => {
                        mismatch = Some(k);
                    },
                }
                k += 1;
            }
            let ghost ls = self.ls();
            let ghost idx = self.indices@;
            proof {
                lemma_skip_advance(ls[bq as int], idx[bq as int] as int);
            }
            match mismatch {
                None => {
                    self.advance(bq);
                    proof {
                        let idx2 = self.indices@;
                        let e2 = push_new(e, m);
                        assert(e.len() > 0 ==> e.last() <= m) by {
                            if e.len() > 0 {
                                assert(e.last() <= ls[bq as int][idx[bq as int] as int]);
                            }
                        }
                        assert(in_every(ls, m)) by {
                            assert forall|q: int| 0 <= q < ls.len() implies #[trigger] ls[q].contains(m) by {
                                assert(ls[q][idx[q] as int] == m);
                            }
                        }
                        assert(sorted_strict(e2)) by {
                            if !(e.len() > 0 && e.last() == m) {
                                assert forall|i: int, j: int| 0 <= i < j < e2.len() implies e2[i] < e2[j] by {
                                    if j == e.len() {
                                        assert(e[i] <= e.last());
                                    }
                                }
                            }
                        }
                        assert forall|x: usize| #[trigger] e2.contains(x) <==> (e.contains(x) || x == m) by {
                            if e2.contains(x) && !(e.contains(x)) {
                                let k = choose|k: int| 0 <= k < e2.len() && e2[k] == x;
                                if k < e.len() {
                                    assert(e[k] == x);
                                }
                            }
                            if e.contains(x) {
                                let k = choose|k: int| 0 <= k < e.len() && e[k] == x;
                                assert(e2[k] == x);
                            }
                            if x == m {
                                if e.len() > 0 && e.last() == m {
                                    assert(e[e.len() - 1] == x);
                                } else {
                                    assert(e2[e.len() as int] == x);
                                }
                            }
                        }
                        assert forall|x: usize| #[trigger] in_every(ls, x) && !e2.contains(x)
                            implies self.remains_everywhere(x) by {
                            assert forall|q: int| 0 <= q < self.sets@.len()
                                implies #[trigger] ls[q].skip(idx2[q] as int).contains(x) by {
                                assert(ls[q].skip(idx[q] as int).contains(x));
                            }
                        }
                        assert(self.bounded(e2)) by {
                            assert forall|p: int, j: int|
                                0 <= p < self.sets@.len() && idx2[p] <= j < ls[p].len() && e2.len() > 0
                                    implies e2.last() <= #[trigger] ls[p][j] by {
                                assert(e2.last() == m);
                                assert(ls[p][idx[p] as int] == m);
                                if idx[p] < j {
                                    assert(ls[p][idx[p] as int] < ls[p][j]);
                                }
                            }
                        }
                    }
                    return Some(m);
                },
                Some(b) => {
                    proof {
                        if in_every(ls, m) && !e.contains(m) {
                            assert(ls[b as int].skip(idx[b as int] as int).contains(m));
                            lemma_skip_bound(ls[b as int], idx[b as int] as int, m);
                            let j = choose|j: int| 0 <= j < ls[b as int].skip(idx[b as int] as int).len()
                                && ls[b as int].skip(idx[b as int] as int)[j] == m;
                            assert(ls[b as int][idx[b as int] + j] == m);
                            if j > 0 {
                                assert(ls[b as int][idx[b as int] as int] < ls[b as int][idx[b as int] + j]);
                            }
                        }
                    }
                    self.advance(bq);
                    proof {
                        let idx2 = self.indices@;
                        assert forall|x: usize| #[trigger] in_every(ls, x) && !e.contains(x)
                            implies self.remains_everywhere(x) by {
                            assert forall|q: int| 0 <= q < self.sets@.len()
                                implies #[trigger] ls[q].skip(idx2[q] as int).contains(x) by {
                                assert(ls[q].skip(idx[q] as int).contains(x));
                            }
                        }
                    }
                },
            }
        }
    }

    /// Yields the least next line of all queues and moves its queue past
    /// it; `None` once every queue is empty.
    fn take_lowest_union(&mut self, Ghost(e): Ghost<Seq<usize>>) -> (r: Option<usize>)
        requires
            old(self).wf(),
            old(self).union_inv(e),
        ensures
            final(self).wf(),
            final(self).sets@ == old(self).sets@,
            final(self).strategy == old(self).strategy,
            r is None ==> final(self).indices@ == old(self).indices@ && final(self).exhausted()
                && final(self).union_inv(e),
            r matches Some(m) ==> {
                &&& final(self).pending() < old(self).pending()
                &&& final(self).union_inv(push_new(e, m))
                &&& (e.len() > 0 ==> e.last() <= m)
            },
            final(self).pending() >= 0,
    {
        proof {
            lemma_pending_nonneg(self.ls(), self.indices@);
        }
        let n = self.sets.len();
        let mut best: Option<(usize, usize)> = None;
        let mut q: usize = 0;
        while q < n
            invariant
                self.wf(),
                n == self.sets@.len(),
                q <= n,
                best is None ==> forall|p: int| 0 <= p < q ==> self.indices@[p] >= #[trigger] self.ls()[p].len(),
                best matches Some(b) ==> {
                    &&& b.0 < q
                    &&& self.indices@[b.0 as int] < self.ls()[b.0 as int].len()
                    &&& self.ls()[b.0 as int][self.indices@[b.0 as int] as int] == b.1
                    &&& forall|p: int|
                        0 <= p < q && self.indices@[p] < self.ls()[p].len() ==> b.1 <= #[trigger] self.ls()[p][self.indices@[p] as int]
                },
            decreases n - q,
        {
            match self.peek(q) {
                Some(v) => {
                    match best {
                        None => {
                            best = Some((q, v));
                        },
                        Some(b) => {
                            if v < b.1 {
                                best = Some((q, v));
                            }
                        },
                    }
                },
                None => {},
            }
            q += 1;
        }
        match best {
            None => None,
            Some(b) => {
                let bq = b.0;
                let m = b.1;
                let ghost ls = self.ls();
                let ghost idx = self.indices@;
                self.advance(bq);
                proof {
                    let idx2 = self.indices@;
                    let e2 = push_new(e, m);
                    let t1 = taken_of(ls, idx);
                    let t2 = taken_of(ls, idx2);
                    assert(e.len() > 0 ==> e.last() <= m) by {
                        if e.len() > 0 {
                            assert(e.last() <= ls[bq as int][idx[bq as int] as int]);
                        }
                    }
                    assert(sorted_strict(e2)) by {
                        if !(e.len() > 0 && e.last() == m) {
                            assert forall|i: int, j: int| 0 <= i < j < e2.len() implies e2[i] < e2[j] by {
                                if j == e.len() {
                                    assert(e[i] <= e.last());
                                }
                            }
                        }
                    }
                    lemma_take_advance(ls[bq as int], idx[bq as int] as int);
                    assert forall|x: usize| #[trigger] e2.contains(x) <==> in_any(t2, x) by {
                        assert(e2.contains(x) <==> (e.contains(x) || x == m)) by {
                            if e2.contains(x) && !(e.contains(x)) {
                                let k = choose|k: int| 0 <= k < e2.len() && e2[k] == x;
                                if k < e.len() {
                                    assert(e[k] == x);
                                }
                            }
                            if e.contains(x) {
                                let k = choose|k: int| 0 <= k < e.len() && e[k] == x;
                                assert(e2[k] == x);
                            }
                            if x == m {
                                if e.len() > 0 && e.last() == m {
                                    assert(e[e.len() - 1] == x);
                                } else {
                                    assert(e2[e.len() as int] == x);
                                }
                            }
                        }
                        assert(t2[bq as int] == ls[bq as int].take(idx[bq as int] + 1));
                        assert(t1[bq as int] == ls[bq as int].take(idx[bq as int] as int));
                        if in_any(t2, x) {
                            let p = choose|p: int| 0 <= p < t2.len() && #[trigger] t2[p].contains(x);
                            if p != bq {
                                assert(t1[p] == t2[p]);
                                assert(in_any(t1, x));
                            } else if x != m {
                                assert(t1[p].contains(x));
                                assert(in_any(t1, x));
                            }
                        }
                        if in_any(t1, x) {
                            let p = choose|p: int| 0 <= p < t1.len() && #[trigger] t1[p].contains(x);
                            if p != bq {
                                assert(t1[p] == t2[p]);
                            }
                            assert(t2[p].contains(x));
                        }
                        if x == m {
                            assert(t2[bq as int].contains(x));
                        }
                    }
                    assert(self.bounded(e2)) by {
                        assert forall|p: int, j: int|
                            0 <= p < self.sets@.len() && idx2[p] <= j < ls[p].len() && e2.len() > 0
                                implies e2.last() <= #[trigger] ls[p][j] by {
                            assert(e2.last() == m);
                            if p == bq {
                                assert(ls[p][idx[p] as int] < ls[p][j]);
                            } else {
                                assert(ls[p][idx[p] as int] <= ls[p][j]);
                            }
                        }
                    }
                }
                Some(m)
            },
        }
    }
}

/// `s` is the complete subset of the lines that any (union) or every
/// (intersection) set of `sets` holds, ascending, reporting as its length
/// at least the largest length of `sets` for a union.
pub open spec fn composed(s: LineSet, sets: Seq<LineSet>, strategy: CompositeStrategy) -> bool {
    match s {
        LineSet::Subset { buf, completed, min_len } => {
            &&& completed
            &&& sorted_strict(buf@)
            &&& forall|x: usize| #[trigger] buf@.contains(x) <==> match strategy {
                CompositeStrategy::Union => in_any(lines_of(sets), x),
                CompositeStrategy::Intersection => in_every(lines_of(sets), x),
            }
            &&& min_len as int == match strategy {
                CompositeStrategy::Union => max_len_of(sets) as int,
                CompositeStrategy::Intersection => 0,
            }
        },
        LineSet::All { .. } => false,
    }
}

impl LineSet {
    /// Combines `filters` by `strategy`: no filter gives the empty set, one
    /// gives that filter, and more give the complete subset of the lines
    /// that any (union) or every (intersection) filter holds.
    ///
    /// Each filter is taken with the lines it holds now; the combination is
    /// computed before this returns, whether or not `complete` asks for it.
    #[allow(unused_variables)]
    pub fn compose(filters: Vec<LineSet>, complete: bool, strategy: CompositeStrategy) -> (r: Result<
        LineSet,
        Error,
    >)
        requires
            forall|i: int| 0 <= i < filters@.len() ==> #[trigger] filters@[i].wf(),
        ensures
            r is Ok,
            filters@.len() == 0 ==> (r matches Ok(s) && s.wf() && s.lines() == Seq::<usize>::empty()
                && s is Subset && s.completed() && s.spec_len() == 0),
            filters@.len() == 1 ==> r == Ok::<LineSet, Error>(filters@[0]),
            filters@.len() >= 2 ==> (r matches Ok(s) && s.wf() && composed(s, filters@, strategy)),
    {
        let mut filters = filters;
        let n = filters.len();
        if n == 0 {
            return Ok(LineSet::empty());
        }
        if n == 1 {
            let f = filters.remove(0);
            return Ok(f);
        }
        let ghost sets = filters@;
        let mut min_len: usize = 0;
        match strategy {
            CompositeStrategy::Union => {
                let mut i: usize = 0;
                while i < n
                    invariant
                        i <= n == filters@.len(),
                        filters@ == sets,
                        forall|j: int| 0 <= j < sets.len() ==> #[trigger] sets[j].wf(),
                        min_len == max_len_of(sets.take(i as int)),
                    decreases n - i,
                {
                    let l = filters[i].len();
                    proof {
                        assert(sets.take(i + 1).drop_last() =~= sets.take(i as int));
                    }
                    if l > min_len {
                        min_len = l;
                    }
                    i += 1;
                }
                proof {
                    assert(sets.take(n as int) =~= sets);
                }
            },
            CompositeStrategy::Intersection => {},
        }
        let mut queues = Queues::new(filters, strategy);
        let mut out: Vec<usize> = Vec::new();
        loop
            invariant
                queues.wf(),
                queues.sets@ == sets,
                queues.strategy == strategy,
                queues.inv(out@),
                queues.pending() >= 0,
            ensures
                queues.wf(),
                queues.sets@ == sets,
                queues.strategy == strategy,
                queues.inv(out@),
                queues.exhausted(),
            decreases queues.pending(),
        {
            let ghost before = out@;
            match queues.take_lowest(Ghost(out@)) {
                None => {
                    break;
                },
                Some(m) => {
                    let len = out.len();
                    if len > 0 && out[len - 1] == m {
                    } else {
                        out.push(m);
                    }
                    proof {
                        assert(out@ == push_new(before, m));
                    }
                },
            }
        }
        proof {
            let ls = queues.ls();
            let e = out@;
            match strategy {
                CompositeStrategy::Union => {
                    assert(taken_of(ls, queues.indices@) =~= ls) by {
                        assert forall|q: int| 0 <= q < ls.len() implies #[trigger] taken_of(ls, queues.indices@)[q] == ls[q] by {
                            assert(ls[q].take(ls[q].len() as int) =~= ls[q]);
                        }
                    }
                },
                CompositeStrategy::Intersection => {
                    assert forall|x: usize| #[trigger] e.contains(x) <==> in_every(ls, x) by {
                        if in_every(ls, x) && !e.contains(x) {
                            assert(ls[0].skip(queues.indices@[0] as int).contains(x));
                            assert(ls[0].skip(queues.indices@[0] as int).len() == 0);
                        }
                    }
                },
            }
        }
        Ok(LineSet::Subset { buf: out, completed: true, min_len })
    }
}

impl From<Vec<usize>> for LineSet {
    fn from(vec: Vec<usize>) -> (r: Self) {
        let min_len = vec.len();
        LineSet::Subset { buf: vec, completed: true, min_len }
    }
}

impl vstd::std_specs::convert::FromSpecImpl<Vec<usize>> for LineSet {
    open spec fn obeys_from_spec() -> bool {
        true
    }

    open spec fn from_spec(v: Vec<usize>) -> LineSet {
        LineSet::Subset { buf: v, completed: true, min_len: v@.len() as usize }
    }
}

/// Whether a set of lines holds a line.
pub trait BufferSearch {
    /// The set is in a state its methods can read.
    spec fn search_wf(&self) -> bool;

    /// The lines the set holds.
    spec fn found_lines(&self) -> Seq<usize>;

    /// Whether the set holds `line_number`.
    fn find(&self, line_number: usize) -> (r: bool)
        requires
            self.search_wf(),
        ensures
            r == self.found_lines().contains(line_number),
    ;
}

impl BufferSearch for LineSet {
    open spec fn search_wf(&self) -> bool {
        self.wf()
    }

    open spec fn found_lines(&self) -> Seq<usize> {
        self.lines()
    }

    fn find(&self, line_number: usize) -> (r: bool) {
        self.has_line(line_number)
    }
}

/// The lines every filter holds are among the lines some filter holds: an
/// intersection lies within the union of the same filters.
pub proof fn law_intersection_within_union(i: LineSet, u: LineSet, sets: Seq<LineSet>)
    requires
        sets.len() > 0,
        composed(i, sets, CompositeStrategy::Intersection),
        composed(u, sets, CompositeStrategy::Union),
    ensures
        forall|x: usize| #[trigger] i.lines().contains(x) ==> u.lines().contains(x),
{
    assert forall|x: usize| #[trigger] i.lines().contains(x) implies u.lines().contains(x) by {
        assert(in_every(lines_of(sets), x));
        assert(lines_of(sets)[0].contains(x));
        assert(in_any(lines_of(sets), x));
    }
}

/// A union reports as its length at least the length of each filter.
pub proof fn law_union_len_covers(u: LineSet, sets: Seq<LineSet>)
    requires
        composed(u, sets, CompositeStrategy::Union),
    ensures
        forall|k: int| 0 <= k < sets.len() ==> #[trigger] sets[k].spec_len() <= u.spec_len(),
{
    assert forall|k: int| 0 <= k < sets.len() implies #[trigger] sets[k].spec_len() <= u.spec_len() by {
        lemma_max_len_of(sets, k);
    }
}

proof fn lemma_max_len_of(sets: Seq<LineSet>, k: int)
    requires
        0 <= k < sets.len(),
    ensures
        sets[k].spec_len() <= max_len_of(sets),
    decreases sets.len(),
{
    if k < sets.len() - 1 {
        assert(sets.drop_last()[k] == sets[k]);
        lemma_max_len_of(sets.drop_last(), k);
    }
}

} // verus!
