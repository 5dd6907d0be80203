use vstd::prelude::*;

verus! {

/// The positions at which `b` occurs in `s`, in ascending order.
pub open spec fn positions_of(s: Seq<u8>, b: u8) -> Seq<usize>
    decreases s.len(),
{
    if s.len() == 0 {
        Seq::empty()
    } else if s.last() == b {
        positions_of(s.drop_last(), b).push((s.len() - 1) as usize)
    } else {
        positions_of(s.drop_last(), b)
    }
}

/// `memchr::memchr_iter`: the positions of every occurrence of `needle` in
/// `haystack`, in ascending order, collected.
#[verifier::external_body]
fn memchr_positions(needle: u8, haystack: &[u8]) -> (r: Vec<usize>)
    ensures
        r@ == positions_of(haystack@, needle),
{
    memchr::memchr_iter(needle, haystack).collect()
}

/// The upper half of a line start: the offset shifted right by 32 bits.
pub open spec fn upper_half(v: u64) -> int {
    (v / 0x1_0000_0000) as int
}

/// The lower half of a line start: the offset's low 32 bits.
pub open spec fn lower_half(v: u64) -> int {
    (v % 0x1_0000_0000) as int
}

/// The upper half recorded for line `k`: that of the last entry whose line
/// is at most `k`, or zero when there is none.
pub open spec fn upper_of(u: Seq<(usize, usize)>, k: int) -> int
    decreases u.len(),
{
    if u.len() == 0 {
        0
    } else if u.last().0 <= k {
        u.last().1 as int
    } else {
        upper_of(u.drop_last(), k)
    }
}

/// The entries are in ascending order of line and of upper half.
pub open spec fn upper_sorted(u: Seq<(usize, usize)>) -> bool {
    forall|i: int, j: int| 0 <= i < j < u.len() ==> u[i].0 < u[j].0 && u[i].1 < u[j].1
}

/// Each item is at most the next.
pub open spec fn nondecreasing(s: Seq<u64>) -> bool {
    forall|i: int, j: int| 0 <= i <= j < s.len() ==> s[i] <= s[j]
}

/// An index of the byte offsets at which lines start, kept compressed: the
/// low 32 bits of each offset, and the upper bits only where they change.
///
/// Offset `k` is the start of line `k`; the offset after the last line is
/// the length of the data, so an index of `n + 1` offsets covers `n` lines.
pub struct LineIndex {
    upper: Vec<(usize, usize)>,
    lower: Vec<u32>,
    complete: bool,
    offsets: Ghost<Seq<u64>>,
}

impl View for LineIndex {
    type V = Seq<u64>;

    /// The offsets recorded, in order.
    closed spec fn view(&self) -> Seq<u64> {
        self.offsets@
    }
}

impl LineIndex {
    /// The compressed halves agree with the offsets, and the offsets do not
    /// decrease.
    pub closed spec fn wf(&self) -> bool {
        &&& self.lower@.len() == self.offsets@.len()
        &&& upper_sorted(self.upper@)
        &&& forall|i: int|
            0 <= i < self.upper@.len() ==> self.upper@[i].0 < self.lower@.len() && self.upper@[i].1
                < 0x1_0000_0000
        &&& forall|k: int|
            0 <= k < self.lower@.len() ==> self.lower@[k] == lower_half(self.offsets@[k]) && upper_of(
                self.upper@,
                k,
            ) == upper_half(self.offsets@[k])
        &&& nondecreasing(self.offsets@)
    }

    /// The upper half the index records for line `k`: that of the last
    /// change at or before it.
    pub closed spec fn recorded_upper(&self, k: int) -> int {
        upper_of(self.upper@, k)
    }

    /// Whether the writer has finished.
    pub closed spec fn completed(&self) -> bool {
        self.complete
    }

    /// The number of lines the offsets delimit.
    pub open spec fn num_lines(&self) -> nat {
        if self@.len() > 0 {
            (self@.len() - 1) as nat
        } else {
            0
        }
    }

    /// The offsets of a well-formed index do not decrease.
    pub proof fn lemma_wf_nondecreasing(&self)
        requires
            self.wf(),
        ensures
            nondecreasing(self@),
    {
    }

    /// The offsets of a well-formed index are counted by a `usize`.
    pub proof fn lemma_len_fits(&self)
        requires
            self.wf(),
        ensures
            self@.len() <= usize::MAX,
    {
        assert(self.lower@.len() == self.lower.len());
    }

    /// An empty index that is still being written.
    fn empty() -> (r: Self)
        ensures
            r.wf(),
            r@ == Seq::<u64>::empty(),
            !r.completed(),
    {
        LineIndex { upper: Vec::new(), lower: Vec::new(), complete: false, offsets: Ghost(Seq::empty()) }
    }

    /// A copy of the index.
    pub fn duplicate(&self) -> (r: Self)
        requires
            self.wf(),
        ensures
            r.wf(),
            r@ == self@,
            r.completed() == self.completed(),
    {
        let mut upper: Vec<(usize, usize)> = Vec::new();
        let mut i: usize = 0;
        while i < self.upper.len()
            invariant
                i <= self.upper@.len(),
                upper@ == self.upper@.take(i as int),
            decreases self.upper@.len() - i,
        {
            upper.push(self.upper[i]);
            i = i + 1;
            proof {
                assert(upper@ =~= self.upper@.take(i as int));
            }
        }
        let mut lower: Vec<u32> = Vec::new();
        let mut j: usize = 0;
        while j < self.lower.len()
            invariant
                j <= self.lower@.len(),
                lower@ == self.lower@.take(j as int),
            decreases self.lower@.len() - j,
        {
            lower.push(self.lower[j]);
            j = j + 1;
            proof {
                assert(lower@ =~= self.lower@.take(j as int));
            }
        }
        proof {
            assert(upper@ =~= self.upper@);
            assert(lower@ =~= self.lower@);
        }
        LineIndex { upper, lower, complete: self.complete, offsets: Ghost(self.offsets@) }
    }

    /// The number of lines: one less than the number of offsets.
    pub fn line_count(&self) -> (r: usize)
        requires
            self.wf(),
        ensures
            r == self.num_lines(),
    {
        self.lower.len().saturating_sub(1)
    }

    /// Whether the writer has finished.
    pub fn is_complete(&self) -> (r: bool)
        ensures
            r == self.completed(),
    {
        self.complete
    }

    /// The upper half of the offset of line `line_number`, shifted back into
    /// place.
    pub fn upper_bits(&self, line_number: usize) -> (r: u64)
        requires
            self.wf(),
        ensures
            r == self.recorded_upper(line_number as int) * 0x1_0000_0000,
            line_number < self@.len() ==> r == upper_half(self@[line_number as int]) * 0x1_0000_0000,
    {
        let size0 = self.upper.len();
        let diff: usize = if size0 == 0 {
            0
        } else {
            let mut size = size0;
            let mut base: usize = 0;
            while size > 1
                invariant
                    size >= 1,
                    base + size <= size0 == self.upper@.len(),
                    base == 0 || self.upper@[base as int].0 <= line_number,
                    base + size == size0 || self.upper@[(base + size) as int].0 > line_number,
                    upper_sorted(self.upper@),
                decreases size,
            {
                let half = size / 2;
                let mid = base + half;
                base = if self.upper[mid].0 > line_number {
                    base
                } else {
                    mid
                };
                size = size - half;
            }
            proof {
                lemma_upper_of_at(self.upper@, base as int, line_number as int);
            }
            let (i, d) = self.upper[base];
            if i <= line_number {
                d
            } else {
                0
            }
        };
        proof {
            lemma_upper_of_bound(self.upper@, line_number as int);
        }
        (diff as u64) * 0x1_0000_0000
    }

    /// The offset at which line `line_number` starts, or for the line after
    /// the last the length of the data; `None` past that.
    pub fn data_of_line(&self, line_number: usize) -> (r: Option<u64>)
        requires
            self.wf(),
        ensures
            r == (if line_number < self@.len() {
                Some(self@[line_number as int])
            } else {
                None::<u64>
            }),
    {
        if line_number < self.lower.len() {
            let lower_bits = self.lower[line_number];
            let upper = self.upper_bits(line_number);
            proof {
                let v = self@[line_number as int];
                lemma_halves(v);
            }
            Some(lower_bits as u64 + upper)
        } else {
            None
        }
    }

    /// The line whose data holds offset `key`: the line `k` with
    /// `self@[k] <= key < self@[k + 1]`, if there is one.
    pub fn line_of_data(&self, key: u64) -> (r: Option<usize>)
        requires
            self.wf(),
        ensures
            r matches Some(k) ==> k + 1 < self@.len() && self@[k as int] <= key < self@[k + 1],
            r is None ==> forall|k: int|
                0 <= k && k + 1 < self@.len() ==> !(#[trigger] self@[k] <= key < self@[k + 1]),
    {
        let mut size = self.lower.len().saturating_sub(1);
        if size == 0 {
            return None;
        }
        let total = size;
        let mut base: usize = 0;
        while size > 1
            invariant
                size >= 1,
                base + size <= total,
                total + 1 == self@.len(),
                self.wf(),
                base == 0 || self@[base as int] <= key,
                base + size == total || self@[(base + size) as int] > key,
            decreases size,
        {
            let half = size / 2;
            let mid = base + half;
            let start = self.data_of_line(mid).unwrap();
            base = if start > key {
                base
            } else {
                mid
            };
            size = size - half;
        }
        let start = self.data_of_line(base).unwrap();
        let end = self.data_of_line(base + 1).unwrap();
        if start <= key && key < end {
            Some(base)
        } else {
            proof {
                assert forall|k: int| 0 <= k && k + 1 < self@.len() implies !(#[trigger] self@[k]
                    <= key < self@[k + 1]) by {
                    if self@[k] <= key < self@[k + 1] {
                        if k < base {
                            assert(self@[k + 1] <= self@[base as int]);
                        } else if k > base {
                            if base + 1 < total {
                                assert(self@[(base + 1) as int] > key);
                            }
                            assert(self@[(base + 1) as int] <= self@[k]);
                        }
                    }
                }
            }
            None
        }
    }
}

/// With the entries sorted by line, the entry the search ends on decides the
/// upper half of line `k`.
proof fn lemma_upper_of_at(u: Seq<(usize, usize)>, base: int, k: int)
    requires
        upper_sorted(u),
        0 <= base < u.len(),
        base == 0 || u[base].0 <= k,
        base + 1 == u.len() || u[base + 1].0 > k,
    ensures
        u[base].0 <= k ==> upper_of(u, k) == u[base].1,
        u[base].0 > k ==> upper_of(u, k) == 0,
    decreases u.len(),
{
    if base + 1 < u.len() {
        let t = u.drop_last();
        assert(upper_sorted(t));
        assert(u.last().0 > k) by {
            if base + 1 < u.len() - 1 {
                assert(u[base + 1].0 < u[u.len() - 1].0);
            }
        }
        lemma_upper_of_at(t, base, k);
    } else {
        if u[base].0 > k {
            // base is 0 and the only entry
            assert(u.drop_last().len() == 0);
            assert(upper_of(u.drop_last(), k) == 0);
        }
    }
}

/// The recorded upper half fits in 32 bits.
proof fn lemma_upper_of_bound(u: Seq<(usize, usize)>, k: int)
    requires
        forall|i: int| 0 <= i < u.len() ==> u[i].1 < 0x1_0000_0000,
    ensures
        0 <= upper_of(u, k) < 0x1_0000_0000,
    decreases u.len(),
{
    if u.len() > 0 {
        lemma_upper_of_bound(u.drop_last(), k);
    }
}

/// An offset is its low half plus its upper half shifted back.
proof fn lemma_halves(v: u64)
    ensures
        lower_half(v) + upper_half(v) * 0x1_0000_0000 == v,
        upper_half(v) < 0x1_0000_0000,
{
}

/// Builds a [`LineIndex`] from the offsets of line starts, pushed in
/// ascending order.
pub struct LineIndexWriter {
    index: LineIndex,
    curr_upper: usize,
}

impl LineIndexWriter {
    /// The index being built, and the upper half last recorded.
    pub closed spec fn wf(&self) -> bool {
        &&& self.index.wf()
        &&& self.curr_upper == (if self.index@.len() > 0 {
            upper_half(self.index@.last())
        } else {
            0
        })
        &&& self.index.upper@.len() > 0 ==> self.index.upper@.last().1 == self.curr_upper
        &&& !self.index.completed()
    }

    /// The offsets pushed so far.
    pub closed spec fn offsets(&self) -> Seq<u64> {
        self.index@
    }

    /// A writer with nothing pushed.
    pub fn new() -> (r: Self)
        ensures
            r.wf(),
            r.offsets() == Seq::<u64>::empty(),
    {
        LineIndexWriter { index: LineIndex::empty(), curr_upper: 0 }
    }

    /// Records the start of a line; starts must not decrease.
    pub fn push(&mut self, line_data: u64)
        requires
            old(self).wf(),
            old(self).offsets().len() == 0 || old(self).offsets().last() <= line_data,
            old(self).offsets().len() < usize::MAX,
        ensures
            final(self).wf(),
            final(self).offsets() == old(self).offsets().push(line_data),
    {
        let upper = (line_data / 0x1_0000_0000) as usize;
        let lower = (line_data % 0x1_0000_0000) as u32;
        let ghost old_upper = self.index.upper@;
        let ghost old_offsets = self.index.offsets@;
        let len = self.index.lower.len();
        proof {
            if old_offsets.len() > 0 {
                assert(upper_half(old_offsets.last()) <= upper_half(line_data)) by (nonlinear_arith)
                    requires
                        old_offsets.last() <= line_data,
                ;
            }
        }
        if upper > self.curr_upper {
            self.index.upper.push((len, upper));
            self.curr_upper = upper;
        }
        self.index.lower.push(lower);
        self.index.offsets = Ghost(old_offsets.push(line_data));
        proof {
            let u = self.index.upper@;
            let offs = self.index.offsets@;
            assert forall|k: int| 0 <= k < self.index.lower@.len() implies upper_of(u, k)
                == upper_half(offs[k]) by {
                if k < len {
                    assert(offs[k] == old_offsets[k]);
                    assert(old(self).index.lower@[k] == lower_half(old_offsets[k]));
                    assert(upper_of(old_upper, k) == upper_half(old_offsets[k]));
                    if u.len() > old_upper.len() {
                        assert(u.drop_last() =~= old_upper);
                        assert(u.last().0 == len);
                    } else {
                        assert(u =~= old_upper);
                    }
                } else {
                    assert(k == len);
                    assert(offs[k] == line_data);
                    if len > 0 {
                        assert(old(self).index.lower@[len - 1] == lower_half(old_offsets[len - 1]));
                        assert(upper_of(old_upper, len - 1) == upper_half(old_offsets.last()));
                    }
                    if u.len() > old_upper.len() {
                        assert(u.last() == (len, upper));
                    } else {
                        assert(u =~= old_upper);
                        if u.len() > 0 {
                            assert(u.last().0 < len);
                        }
                    }
                }
            }
            assert(upper_sorted(u)) by {
                if u.len() > old_upper.len() {
                    assert forall|i: int, j: int| 0 <= i < j < u.len() implies u[i].0 < u[j].0
                        && u[i].1 < u[j].1 by {
                        if j == u.len() - 1 && i < j {
                            assert(u[i] == old_upper[i]);
                            if i < old_upper.len() - 1 {
                                assert(old_upper[i].1 < old_upper.last().1);
                            }
                        }
                    }
                }
            }
            assert(nondecreasing(self.index.offsets@)) by {
                let s = self.index.offsets@;
                assert forall|i: int, j: int| 0 <= i <= j < s.len() implies s[i] <= s[j] by {
                    if j == s.len() - 1 && i < j {
                        assert(old_offsets[i] <= old_offsets.last());
                    }
                }
            }
        }
    }

    /// Records the lines of a chunk of data that starts at offset `start`:
    /// each newline starts a line just after it.
    pub fn index_chunk(&mut self, start: u64, data: &[u8])
        requires
            old(self).wf(),
            old(self).offsets().len() == 0 || old(self).offsets().last() <= start + 1,
            start + data@.len() <= u64::MAX,
            old(self).offsets().len() + data@.len() < usize::MAX,
        ensures
            final(self).wf(),
            final(self).offsets() == old(self).offsets() + line_starts(start, positions_of(
                data@,
                10u8,
            )),
    {
        let positions = memchr_positions(10u8, data);
        let ghost pos = positions@;
        proof {
            lemma_positions_of_bounds(data@, 10u8);
        }
        let mut i: usize = 0;
        while i < positions.len()
            invariant
                self.wf(),
                i <= pos.len(),
                positions@ == pos,
                pos == positions_of(data@, 10u8),
                pos.len() <= data@.len(),
                forall|j: int| 0 <= j < pos.len() ==> pos[j] < data@.len(),
                forall|j: int, k: int| 0 <= j < k < pos.len() ==> pos[j] < pos[k],
                start + data@.len() <= u64::MAX,
                old(self).offsets().len() + data@.len() < usize::MAX,
                self.offsets() == old(self).offsets() + line_starts(start, pos.take(i as int)),
                old(self).offsets().len() == 0 || old(self).offsets().last() <= start + 1,
                i > 0 ==> self.offsets().last() == start + pos[i - 1] + 1,
                i == 0 ==> self.offsets() == old(self).offsets(),
            decreases pos.len() - i,
        {
            let line_data = start + positions[i] as u64 + 1;
            proof {
                if i > 0 {
                    assert(pos[i - 1] < pos[i as int]);
                }
            }
            self.push(line_data);
            proof {
                assert(pos.take(i + 1) =~= pos.take(i as int).push(pos[i as int]));
                assert(line_starts(start, pos.take(i + 1)) =~= line_starts(start, pos.take(
                    i as int,
                )).push(line_data));
            }
            i = i + 1;
        }
        proof {
            assert(pos.take(pos.len() as int) =~= pos);
        }
    }

    /// Finishes the index.
    pub fn finish(self) -> (r: LineIndex)
        requires
            self.wf(),
        ensures
            r.wf(),
            r@ == self.offsets(),
            r.completed(),
    {
        let mut index = self.index;
        index.complete = true;
        index
    }
}

/// The line starts that newlines at `positions` of a chunk starting at
/// `start` give: each just past its newline.
pub open spec fn line_starts(start: u64, positions: Seq<usize>) -> Seq<u64> {
    Seq::new(positions.len(), |j: int| (start + positions[j] + 1) as u64)
}

/// The positions of a byte are ascending and within the data.
pub(crate) proof fn lemma_positions_of_bounds(s: Seq<u8>, b: u8)
    requires
        s.len() <= usize::MAX,
    ensures
        positions_of(s, b).len() <= s.len(),
        forall|j: int| 0 <= j < positions_of(s, b).len() ==> positions_of(s, b)[j] < s.len(),
        forall|j: int| 0 <= j < positions_of(s, b).len() ==> s[positions_of(s, b)[j] as int] == b,
        forall|j: int, k: int|
            0 <= j < k < positions_of(s, b).len() ==> positions_of(s, b)[j] < positions_of(s, b)[k],
    decreases s.len(),
{
    if s.len() > 0 {
        let t = s.drop_last();
        lemma_positions_of_bounds(t, b);
        let p = positions_of(t, b);
        let q = positions_of(s, b);
        if s.last() == b {
            assert(q == p.push((s.len() - 1) as usize));
        } else {
            assert(q == p);
        }
        assert forall|j: int| 0 <= j < q.len() implies s[q[j] as int] == b by {
            if j < p.len() {
                assert(q[j] == p[j]);
                assert(s[p[j] as int] == t[p[j] as int]);
            }
        }
        assert forall|j: int, k: int| 0 <= j < k < q.len() implies q[j] < q[k] by {
            if k < p.len() {
                assert(q[j] == p[j]);
                assert(q[k] == p[k]);
            } else {
                assert(q[j] == p[j]);
            }
        }
    }
}

/// The index of a whole buffer: a start at zero, a start after each
/// newline, and the length at the end.
pub fn index_buffer(data: &[u8]) -> (r: LineIndex)
    requires
        data@.len() + 2 < usize::MAX,
        data@.len() < u64::MAX,
    ensures
        r.wf(),
        r.completed(),
        r@ == seq![0u64] + line_starts(0, positions_of(data@, 10u8)) + seq![data@.len() as u64],
{
    let mut writer = LineIndexWriter::new();
    writer.push(0);
    proof {
        assert(writer.offsets() == seq![0u64]);
    }
    writer.index_chunk(0, data);
    proof {
        lemma_positions_of_bounds(data@, 10u8);
        let p = positions_of(data@, 10u8);
        if p.len() > 0 {
            assert(writer.offsets().last() == (p.last() + 1) as u64);
        }
    }
    let len = data.len() as u64;
    writer.push(len);
    writer.finish()
}

/// Line-based access to the data of a buffer.
pub trait BufferIndex {
    /// The index is in a state its methods can read.
    spec fn index_wf(&self) -> bool;

    /// The offsets of the line starts the index records.
    spec fn line_starts_of(&self) -> Seq<u64>;

    /// The number of lines the index can see.
    fn line_count(&self) -> (r: usize)
        requires
            self.index_wf(),
        ensures
            r == (if self.line_starts_of().len() > 0 {
                self.line_starts_of().len() - 1
            } else {
                0
            }),
    ;

    /// The line whose data holds byte `start`.
    fn line_of_data(&self, start: u64) -> (r: Option<usize>)
        requires
            self.index_wf(),
        ensures
            r matches Some(k) ==> k + 1 < self.line_starts_of().len() && self.line_starts_of()[k as int]
                <= start < self.line_starts_of()[k + 1],
            r is None ==> forall|k: int|
                0 <= k && k + 1 < self.line_starts_of().len() ==> !(#[trigger] self.line_starts_of()[k]
                    <= start < self.line_starts_of()[k + 1]),
    ;

    /// The byte at which line `line_number` starts.
    fn data_of_line(&self, line_number: usize) -> (r: Option<u64>)
        requires
            self.index_wf(),
        ensures
            r == (if line_number < self.line_starts_of().len() {
                Some(self.line_starts_of()[line_number as int])
            } else {
                None::<u64>
            }),
    ;
}

impl BufferIndex for LineIndex {
    open spec fn index_wf(&self) -> bool {
        self.wf()
    }

    open spec fn line_starts_of(&self) -> Seq<u64> {
        self@
    }

    fn line_count(&self) -> (r: usize) {
        LineIndex::line_count(self)
    }

    fn line_of_data(&self, start: u64) -> (r: Option<usize>) {
        LineIndex::line_of_data(self, start)
    }

    fn data_of_line(&self, line_number: usize) -> (r: Option<u64>) {
        LineIndex::data_of_line(self, line_number)
    }
}

/// How far indexing has come: a fraction, kept as the bits of an `f32`, or
/// nothing when progress is not reported.
pub struct ProgressReport {
    progress: Option<u32>,
}

impl ProgressReport {
    /// The bits of the fraction, if progress is reported.
    pub closed spec fn bits(&self) -> Option<u32> {
        self.progress
    }

    /// A report of progress, starting at zero.
    pub fn percent() -> (r: Self)
        ensures
            r.bits() == Some(0u32),
    {
        ProgressReport { progress: Some(0) }
    }

    /// No report of progress.
    pub fn none() -> (r: Self)
        ensures
            r.bits() is None,
    {
        ProgressReport { progress: None }
    }

    /// The bits of the fraction reached, if progress is reported.
    pub fn progress_bits(&self) -> (r: Option<u32>)
        ensures
            r == self.bits(),
    {
        self.progress
    }

    /// Records the fraction whose bits are `val`, if progress is reported.
    pub fn store_progress_bits(&mut self, val: u32)
        ensures
            old(self).bits() is Some ==> final(self).bits() == Some(val),
            old(self).bits() is None ==> final(self).bits() is None,
    {
        if self.progress.is_some() {
            self.progress = Some(val);
        }
    }

    /// Records completion: the fraction one, whose bits are `0x3f80_0000`.
    pub fn complete(&mut self)
        ensures
            old(self).bits() is Some ==> final(self).bits() == Some(0x3f80_0000u32),
            old(self).bits() is None ==> final(self).bits() is None,
    {
        self.store_progress_bits(0x3f80_0000);
    }
}

/// Looking up the line of the byte at which line `k` starts gives `k`,
/// for a line that holds at least one byte: `line_of_data` inverts
/// `data_of_line`.
pub proof fn law_line_of_data_inverts_data_of_line(offsets: Seq<u64>, k: int)
    requires
        nondecreasing(offsets),
        0 <= k,
        k + 1 < offsets.len(),
        offsets[k] < offsets[k + 1],
    ensures
        offsets[k] <= offsets[k] < offsets[k + 1],
        forall|j: int|
            0 <= j && j + 1 < offsets.len() && #[trigger] offsets[j] <= offsets[k] < offsets[j + 1] ==> j == k,
{
    assert forall|j: int|
        0 <= j && j + 1 < offsets.len() && #[trigger] offsets[j] <= offsets[k] < offsets[j + 1] implies j == k by {
        if j < k {
            assert(offsets[j + 1] <= offsets[k]);
        } else if j > k {
            assert(offsets[k + 1] <= offsets[j]);
        }
    }
}

} // verus!
