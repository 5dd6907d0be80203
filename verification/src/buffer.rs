use vstd::prelude::*;

use std::ops::Range;

use vstd::utf8::{decode_utf8, valid_utf8};

use crate::editor::{chars_of, is_whitespace, is_whitespace_char, string_of};
use crate::err::Error;
use crate::line_index::{
    index_buffer, lemma_positions_of_bounds, line_starts, positions_of, LineIndex,
};
use crate::lineset::{first_lines, LineSet};
use crate::search::holds_byte;
use crate::segment::SegmentRaw;

verus! {

/// The number of bytes a full segment holds.
pub const SEGMENT_SIZE: u64 = 0x10_0000;

/// The first offset of segment `i` when segments hold `size` bytes.
pub open spec fn seg_lo(i: int, size: int) -> int {
    i * size
}

/// The offset just past segment `i` of data of length `len`.
pub open spec fn seg_hi(i: int, size: int, len: int) -> int {
    if (i + 1) * size <= len {
        (i + 1) * size
    } else {
        len
    }
}

/// The data, cut into segments of `segment_size` bytes, each but the last
/// full.
pub struct BufferMap {
    segments: Vec<SegmentRaw<Vec<u8>>>,
    segment_size: u64,
    data: Ghost<Seq<u8>>,
}

/// Division by a positive size places `x` in a segment.
proof fn lemma_div_place(x: int, size: int)
    requires
        0 <= x,
        0 < size,
    ensures
        (x / size) * size <= x < (x / size) * size + size,
        0 <= x / size,
{
    assert((x / size) * size <= x < (x / size) * size + size) by (nonlinear_arith)
        requires
            0 <= x,
            0 < size,
    ;
    assert(0 <= x / size) by (nonlinear_arith)
        requires
            0 <= x,
            0 < size,
    ;
}

/// Segment numbers keep the order of the offsets.
proof fn lemma_div_monotone(x: int, y: int, size: int)
    requires
        0 <= x <= y,
        0 < size,
    ensures
        x / size <= y / size,
{
    assert(x / size <= y / size) by (nonlinear_arith)
        requires
            0 <= x <= y,
            0 < size,
    ;
}

/// A multiple of a positive size below another is a smaller multiple.
proof fn lemma_mul_lt(i: int, j: int, size: int)
    requires
        0 < size,
        i * size < j * size,
    ensures
        i < j,
{
    assert(i < j) by (nonlinear_arith)
        requires
            0 < size,
            i * size < j * size,
    ;
}

/// Consecutive multiples differ by the size.
proof fn lemma_mul_succ(i: int, size: int)
    ensures
        (i + 1) * size == i * size + size,
{
    assert((i + 1) * size == i * size + size) by (nonlinear_arith);
}

/// Multiples keep the order of their factors.
proof fn lemma_mul_le(i: int, j: int, size: int)
    requires
        i <= j,
        0 < size,
    ensures
        i * size <= j * size,
{
    assert(i * size <= j * size) by (nonlinear_arith)
        requires
            i <= j,
            0 < size,
    ;
}

impl BufferMap {
    /// The bytes the segments hold, in order.
    pub closed spec fn contents(&self) -> Seq<u8> {
        self.data@
    }

    /// The number of bytes a full segment holds.
    pub closed spec fn size(&self) -> u64 {
        self.segment_size
    }

    /// The number of segments.
    pub closed spec fn count(&self) -> nat {
        self.segments@.len()
    }

    /// Segment `i`.
    pub closed spec fn segment(&self, i: int) -> SegmentRaw<Vec<u8>> {
        self.segments@[i]
    }

    /// Segment `i` covers its share of the data.
    pub closed spec fn seg_ok(&self, i: int) -> bool {
        let s = self.segments@[i];
        let size = self.segment_size as int;
        let len = self.data@.len() as int;
        &&& s.range_start() == seg_lo(i, size)
        &&& s.range_end() == seg_hi(i, size, len)
        &&& s.contents()@ == self.data@.subrange(seg_lo(i, size), seg_hi(i, size, len))
    }

    /// The segments hold the data, one full segment after another.
    pub closed spec fn wf(&self) -> bool {
        &&& self.segment_size > 0
        &&& self.data@.len() + self.segment_size <= u64::MAX
        &&& forall|i: int| 0 <= i < self.segments@.len() ==> #[trigger] self.seg_ok(i)
        &&& self.data@.len() <= self.segments@.len() * self.segment_size
        &&& self.segments@.len() > 0 ==> (self.segments@.len() - 1) * self.segment_size
            < self.data@.len()
        &&& self.segments@.len() <= usize::MAX
    }

    /// Segment `i` is a nonempty run of the data starting at `i * size`.
    proof fn lemma_seg(&self, i: int)
        requires
            self.wf(),
            0 <= i < self.segments@.len(),
        ensures
            self.segment(i).range_start() == i * (self.segment_size as int),
            self.segment(i).range_start() < self.segment(i).range_end() <= self.data@.len(),
            self.segment(i).range_end() == seg_hi(
                i,
                self.segment_size as int,
                self.data@.len() as int,
            ),
            self.segment(i).contents()@ == self.data@.subrange(
                self.segment(i).range_start() as int,
                self.segment(i).range_end() as int,
            ),
    {
        let size = self.segment_size as int;
        assert(self.seg_ok(i));
        lemma_mul_le(i, self.segments@.len() - 1, size);
        lemma_mul_succ(i, size);
    }

    /// The segment that offset `x` falls in, and where it lies there.
    proof fn lemma_locate(&self, x: int)
        requires
            self.wf(),
            0 <= x <= self.data@.len(),
        ensures
            0 <= x / (self.segment_size as int),
            x < self.data@.len() ==> x / (self.segment_size as int) < self.segments@.len(),
            x / (self.segment_size as int) < self.segments@.len() ==> {
                let s = self.segments@[x / (self.segment_size as int)];
                s.range_start() <= x <= s.range_end()
            },
            x / (self.segment_size as int) >= self.segments@.len() ==> x == self.data@.len(),
    {
        let size = self.segment_size as int;
        let id = x / size;
        let n = self.segments@.len() as int;
        lemma_div_place(x, size);
        if x < self.data@.len() {
            lemma_mul_lt(id, n, size);
        }
        if id < n {
            assert(self.seg_ok(id));
            lemma_mul_succ(id, size);
        } else {
            lemma_mul_le(n, id, size);
        }
    }

    /// Consecutive segments meet.
    proof fn lemma_adjacent(&self, i: int)
        requires
            self.wf(),
            0 <= i,
            i + 1 < self.segments@.len(),
        ensures
            self.segments@[i].range_end() == self.segments@[i + 1].range_start(),
            self.segments@[i + 1].range_start() == (i + 1) * (self.segment_size as int),
    {
        let size = self.segment_size as int;
        let n = self.segments@.len() as int;
        assert(self.seg_ok(i));
        assert(self.seg_ok(i + 1));
        lemma_mul_le(i + 1, n - 1, size);
    }

    /// The data cut into segments of `segment_size` bytes.
    pub fn from_bytes(data: &[u8], segment_size: u64) -> (r: Self)
        requires
            segment_size > 0,
            data@.len() + segment_size <= u64::MAX,
        ensures
            r.wf(),
            r.contents() == data@,
            r.size() == segment_size,
    {
        let len = data.len();
        let ghost size = segment_size as int;
        let mut segments: Vec<SegmentRaw<Vec<u8>>> = Vec::new();
        let mut pos: usize = 0;
        proof {
            assert(0 * size == 0) by (nonlinear_arith);
        }
        while pos < len
            invariant
                len == data@.len(),
                len < u64::MAX,
                size == segment_size,
                segment_size > 0,
                pos <= len,
                forall|i: int|
                    0 <= i < segments@.len() ==> {
                        let s = #[trigger] segments@[i];
                        &&& s.range_start() == seg_lo(i, size)
                        &&& s.range_end() == seg_hi(i, size, len as int)
                        &&& s.contents()@ == data@.subrange(
                            seg_lo(i, size),
                            seg_hi(i, size, len as int),
                        )
                    },
                pos < len ==> pos == segments@.len() * size,
                pos == len ==> len <= segments@.len() * size,
                segments@.len() > 0 ==> (segments@.len() - 1) * size < len,
            decreases len - pos,
        {
            let k = segments.len();
            let remaining = len - pos;
            let take: usize = if (remaining as u64) < segment_size {
                remaining
            } else {
                segment_size as usize
            };
            let end = pos + take;
            let chunk = vstd::slice::slice_to_vec(vstd::slice::slice_subrange(data, pos, end));
            let segment = SegmentRaw::new((pos as u64)..(end as u64), chunk);
            proof {
                lemma_mul_succ(k as int, size);
                assert(seg_lo(k as int, size) == pos);
                assert(seg_hi(k as int, size, len as int) == end);
            }
            segments.push(segment);
            pos = end;
            proof {
                assert(segments@[k as int] == segment);
            }
        }
        proof {
            if len == 0 {
                assert(segments@.len() == 0) by {
                    if segments@.len() > 0 {
                        lemma_mul_le(0, segments@.len() - 1, size);
                    }
                }
            }
        }
        // The length read fits a `usize`.
        let _count = segments.len();
        let r = BufferMap { segments, segment_size, data: Ghost(data@) };
        proof {
            assert forall|i: int| 0 <= i < r.segments@.len() implies #[trigger] r.seg_ok(i) by {
                assert(r.segments@[i] == segments@[i]);
            }
        }
        r
    }

    /// The number of the segment holding offset `start`.
    pub fn id_of_data(&self, start: u64) -> (r: usize)
        requires
            self.wf(),
        ensures
            r == (start / self.size()) as usize,
    {
        (start / self.segment_size) as usize
    }

    /// The offsets segment `id` would cover were it full.
    pub fn data_range_of_id(&self, id: usize) -> (r: Range<u64>)
        requires
            self.wf(),
            (id + 1) * self.size() <= u64::MAX,
        ensures
            r.start == id * self.size(),
            r.end == id * self.size() + self.size(),
    {
        proof {
            lemma_mul_succ(id as int, self.segment_size as int);
            lemma_mul_le(0, id as int, self.segment_size as int);
        }
        let start = id as u64 * self.segment_size;
        start..start + self.segment_size
    }

    /// Segment `seg_id`, where there is one.
    pub fn fetch(&self, seg_id: usize) -> (r: Option<&SegmentRaw<Vec<u8>>>)
        requires
            self.wf(),
        ensures
            seg_id < self.count() ==> r == Some(&self.segment(seg_id as int)),
            seg_id >= self.count() ==> r is None,
    {
        if seg_id < self.segments.len() {
            Some(&self.segments[seg_id])
        } else {
            None
        }
    }
}

/// Appends `src[from..to]` to `out`.
fn append_bytes(out: &mut Vec<u8>, src: &[u8], from: usize, to: usize)
    requires
        from <= to <= src@.len(),
    ensures
        final(out)@ == old(out)@ + src@.subrange(from as int, to as int),
{
    let ghost start = out@;
    let mut i = from;
    while i < to
        invariant
            from <= i <= to <= src@.len(),
            out@ == start + src@.subrange(from as int, i as int),
        decreases to - i,
    {
        out.push(src[i]);
        i = i + 1;
        proof {
            assert(out@ =~= start + src@.subrange(from as int, i as int));
        }
    }
}

/// The text `String::from_utf8_lossy` makes of `bytes`: their decoding,
/// with each invalid sequence replaced by U+FFFD.
pub uninterp spec fn utf8_lossy(bytes: Seq<u8>) -> Seq<char>;

/// `String::from_utf8_lossy`, owned: the text of `bytes`, which is their
/// decoding where they are valid UTF-8.
#[verifier::external_body]
fn lossy_string(bytes: &[u8]) -> (r: String)
    ensures
        r@ == utf8_lossy(bytes@),
        valid_utf8(bytes@) ==> r@ == decode_utf8(bytes@),
{
    String::from_utf8_lossy(bytes).into_owned()
}

/// `String::from_utf8`: the text of `bytes` if they are valid UTF-8.
#[verifier::external_body]
fn strict_string(bytes: Vec<u8>) -> (r: Option<String>)
    ensures
        r is Some <==> valid_utf8(bytes@),
        r matches Some(s) ==> s@ == decode_utf8(bytes@),
{
    String::from_utf8(bytes).ok()
}

/// `s` without the whitespace at its end.
pub open spec fn trimmed_end(s: Seq<char>) -> Seq<char>
    decreases s.len(),
{
    if s.len() > 0 && is_whitespace_char(s.last()) {
        trimmed_end(s.drop_last())
    } else {
        s
    }
}

/// The text of `s` without the whitespace at its end.
pub fn trim_end(s: &str) -> (r: String)
    ensures
        r@ == trimmed_end(s@),
{
    let mut chars = chars_of(s);
    let ghost target = trimmed_end(s@);
    let mut k = chars.len();
    proof {
        assert(chars@.take(k as int) =~= s@);
    }
    loop
        invariant
            k <= chars@.len(),
            chars@ == s@,
            trimmed_end(chars@.take(k as int)) == target,
        ensures
            k <= chars@.len(),
            chars@ == s@,
            trimmed_end(chars@.take(k as int)) == target,
            k == 0 || !is_whitespace_char(chars@[k - 1]),
        decreases k,
    {
        if k == 0 || !is_whitespace(chars[k - 1]) {
            break;
        }
        proof {
            assert(chars@.take(k as int).drop_last() =~= chars@.take(k - 1));
        }
        k = k - 1;
    }
    proof {
        assert(trimmed_end(chars@.take(k as int)) == chars@.take(k as int));
    }
    chars.truncate(k);
    string_of(&chars)
}

/// The bytes of the lines `lines` of `buf`, one after another.
pub open spec fn joined_bytes(buf: SegBuffer, lines: Seq<usize>) -> Seq<u8>
    decreases lines.len(),
{
    if lines.len() == 0 {
        Seq::empty()
    } else {
        joined_bytes(buf, lines.drop_last()) + buf.line_bytes(lines.last() as int)
    }
}

/// The text of the lines `lines` of `buf`, one after another.
pub open spec fn joined_text(buf: SegBuffer, lines: Seq<usize>) -> Seq<char>
    decreases lines.len(),
{
    if lines.len() == 0 {
        Seq::empty()
    } else {
        joined_text(buf, lines.drop_last()) + utf8_lossy(buf.line_bytes(lines.last() as int))
    }
}

/// The line `k` whose data holds offset `pos`: `offs[k] <= pos < offs[k + 1]`.
pub open spec fn line_holding(offs: Seq<u64>, pos: int) -> Option<int> {
    if exists|k: int| #[trigger] holds_byte(offs, k, pos) {
        Some(choose|k: int| #[trigger] holds_byte(offs, k, pos))
    } else {
        None
    }
}

/// Offsets that do not decrease hold each position in at most one line.
proof fn lemma_line_holding_unique(offs: Seq<u64>, pos: int, k: int)
    requires
        crate::line_index::nondecreasing(offs),
        0 <= k && k + 1 < offs.len() && offs[k] <= pos < offs[k + 1],
    ensures
        line_holding(offs, pos) == Some(k),
{
    assert(holds_byte(offs, k, pos));
    let j = choose|j: int| #[trigger] holds_byte(offs, j, pos);
    assert(holds_byte(offs, j, pos));
    if j < k {
        assert(offs[j + 1] <= offs[k]);
    } else if k < j {
        assert(offs[k + 1] <= offs[j]);
    }
}

/// Where a line at or past `c` starts at or below `pos` and no line holds
/// `pos`, every later line starts at or below `pos` too.
proof fn lemma_no_holder(offs: Seq<u64>, pos: int, c: int)
    requires
        0 <= c < offs.len(),
        offs[c] <= pos,
        line_holding(offs, pos) is None,
    ensures
        forall|k: int| c <= k < offs.len() ==> offs[k] <= pos,
    decreases offs.len() - c,
{
    if c + 1 < offs.len() {
        assert(!holds_byte(offs, c, pos));
        lemma_no_holder(offs, pos, c + 1);
    }
}

/// A buffer of data cut into segments, with the index of its lines.
pub struct SegBuffer {
    index: LineIndex,
    map: BufferMap,
}

impl SegBuffer {
    /// The bytes of the buffer.
    pub closed spec fn contents(&self) -> Seq<u8> {
        self.map.contents()
    }

    /// The line starts the index records, the data's length last.
    pub closed spec fn offsets(&self) -> Seq<u64> {
        self.index@
    }

    /// The number of bytes a full segment holds.
    pub closed spec fn segment_size(&self) -> u64 {
        self.map.size()
    }

    /// The number of segments.
    pub closed spec fn segment_count(&self) -> nat {
        self.map.count()
    }

    /// Whether the index has seen all of the data.
    pub closed spec fn completed(&self) -> bool {
        self.index.completed()
    }

    /// The index and the segments agree with the data.
    pub closed spec fn wf(&self) -> bool {
        &&& self.index.wf()
        &&& self.map.wf()
        &&& forall|k: int| 0 <= k < self.index@.len() ==> #[trigger] self.index@[k] <= self.map.contents().len()
    }

    /// The number of lines.
    pub open spec fn line_total(&self) -> nat {
        if self.offsets().len() > 0 {
            (self.offsets().len() - 1) as nat
        } else {
            0
        }
    }

    /// The bytes of line `ln`, its newline included.
    pub open spec fn line_bytes(&self, ln: int) -> Seq<u8> {
        self.contents().subrange(self.offsets()[ln] as int, self.offsets()[ln + 1] as int)
    }

    /// Line `ln` exists and the segment holding its end is present.
    pub open spec fn line_readable(&self, ln: int) -> bool {
        &&& 0 <= ln
        &&& ln + 1 < self.offsets().len()
        &&& ((self.offsets()[ln + 1] as int) / (self.segment_size() as int)) < self.segment_count()
    }

    /// The offsets of a well-formed buffer do not decrease and stay within
    /// the data.
    proof fn lemma_offsets(&self, a: int, b: int)
        requires
            self.wf(),
            0 <= a <= b < self.offsets().len(),
        ensures
            self.offsets()[a] <= self.offsets()[b] <= self.contents().len(),
    {
        self.index.lemma_wf_nondecreasing();
    }

    /// The buffer of `data`, cut into segments of `segment_size` bytes.
    pub fn with_segment_size(data: &[u8], segment_size: u64) -> (r: Self)
        requires
            segment_size > 0,
            data@.len() + 2 < usize::MAX,
            data@.len() + segment_size <= u64::MAX,
        ensures
            r.wf(),
            r.completed(),
            r.contents() == data@,
            r.segment_size() == segment_size,
            r.offsets() == seq![0u64] + line_starts(0, positions_of(data@, 10u8)) + seq![
                data@.len() as u64,
            ],
    {
        let index = index_buffer(data);
        let map = BufferMap::from_bytes(data, segment_size);
        proof {
            lemma_positions_of_bounds(data@, 10u8);
            let p = positions_of(data@, 10u8);
            let o = index@;
            assert forall|k: int| 0 <= k < o.len() implies #[trigger] o[k] <= map.contents().len() by {
                if 1 <= k <= p.len() {
                    assert(o[k] == line_starts(0, p)[k - 1]);
                }
            }
        }
        SegBuffer { index, map }
    }

    /// The buffer of `data`, cut into segments of the usual size.
    pub fn from_bytes(data: &[u8]) -> (r: Self)
        requires
            data@.len() + 2 < usize::MAX,
            data@.len() + SEGMENT_SIZE <= u64::MAX,
        ensures
            r.wf(),
            r.completed(),
            r.contents() == data@,
            r.segment_size() == SEGMENT_SIZE,
            r.offsets() == seq![0u64] + line_starts(0, positions_of(data@, 10u8)) + seq![
                data@.len() as u64,
            ],
    {
        Self::with_segment_size(data, SEGMENT_SIZE)
    }

    /// The number of lines.
    pub fn line_count(&self) -> (r: usize)
        requires
            self.wf(),
        ensures
            r == self.line_total(),
    {
        self.index.line_count()
    }

    /// The index of the lines.
    pub fn index(&self) -> (r: &LineIndex)
        requires
            self.wf(),
        ensures
            r.wf(),
            r@ == self.offsets(),
            r.completed() == self.completed(),
    {
        &self.index
    }

    /// The segment number of an offset within the data.
    fn segment_id(&self, x: u64) -> (r: usize)
        requires
            self.wf(),
            x <= self.contents().len(),
        ensures
            r == (x as int) / (self.segment_size() as int),
            r <= self.segment_count(),
    {
        proof {
            self.map.lemma_locate(x as int);
            let size = self.map.size() as int;
            let n = self.map.count() as int;
            if (x as int) / size >= n {
                lemma_div_monotone(x as int, n * size, size);
                assert((n * size) / size == n) by (nonlinear_arith)
                    requires
                        0 < size,
                ;
            }
        }
        self.map.id_of_data(x)
    }

    /// The bytes of line `line_number`, where the segments hold them.
    pub fn get_bytes(&self, line_number: usize) -> (r: Option<Vec<u8>>)
        requires
            self.wf(),
            line_number <= self.line_total(),
        ensures
            r is Some <==> self.line_readable(line_number as int),
            r matches Some(v) ==> v@ == self.line_bytes(line_number as int),
    {
        proof {
            self.index.lemma_len_fits();
        }
        let data_start = match self.index.data_of_line(line_number) {
            Some(v) => v,
            None => return None,
        };
        let data_end = match self.index.data_of_line(line_number + 1) {
            Some(v) => v,
            None => return None,
        };
        proof {
            self.lemma_offsets(line_number as int, line_number as int + 1);
        }
        let seg_start = self.segment_id(data_start);
        let seg_end = self.segment_id(data_end);
        let ghost size = self.map.size() as int;
        let ghost data = self.map.contents();
        proof {
            lemma_div_monotone(data_start as int, data_end as int, size);
            self.map.lemma_locate(data_start as int);
            self.map.lemma_locate(data_end as int);
        }
        if seg_start == seg_end {
            let seg = match self.map.fetch(seg_start) {
                Some(seg) => seg,
                None => return None,
            };
            proof {
                self.map.lemma_seg(seg_start as int);
            }
            let range = seg.translate_inner_data_range(data_start, data_end);
            let bytes = seg.data();
            // The length read fits a `usize`.
            let _n = bytes.len();
            let mut out: Vec<u8> = Vec::new();
            append_bytes(&mut out, bytes.as_slice(), range.start as usize, range.end as usize);
            proof {
                assert(out@ =~= self.line_bytes(line_number as int));
            }
            Some(out)
        } else {
            let seg_first = match self.map.fetch(seg_start) {
                Some(seg) => seg,
                None => return None,
            };
            let seg_last = match self.map.fetch(seg_end) {
                Some(seg) => seg,
                None => return None,
            };
            proof {
                self.map.lemma_seg(seg_start as int);
                self.map.lemma_seg(seg_end as int);
                self.map.lemma_adjacent(seg_start as int);
            }
            let start = seg_first.translate_inner_data_index(data_start);
            let end = seg_last.translate_inner_data_index(data_end);
            let mut out: Vec<u8> = Vec::new();
            let first_bytes = seg_first.data();
            append_bytes(&mut out, first_bytes.as_slice(), start as usize, first_bytes.len());
            proof {
                assert(out@ =~= data.subrange(
                    data_start as int,
                    self.map.segment(seg_start as int + 1).range_start() as int,
                ));
            }
            let mut seg_id = seg_start + 1;
            while seg_id < seg_end
                invariant
                    self.map.wf(),
                    seg_start < seg_id <= seg_end < self.map.count(),
                    data == self.map.contents(),
                    data_start <= self.map.segment(seg_id as int).range_start(),
                    out@ == data.subrange(
                        data_start as int,
                        self.map.segment(seg_id as int).range_start() as int,
                    ),
                decreases seg_end - seg_id,
            {
                let seg = match self.map.fetch(seg_id) {
                    Some(seg) => seg,
                    None => return None,
                };
                proof {
                    self.map.lemma_seg(seg_id as int);
                    self.map.lemma_adjacent(seg_id as int);
                }
                let bytes = seg.data();
                append_bytes(&mut out, bytes.as_slice(), 0, bytes.len());
                seg_id = seg_id + 1;
                proof {
                    assert(out@ =~= data.subrange(
                        data_start as int,
                        self.map.segment(seg_id as int).range_start() as int,
                    ));
                }
            }
            let last_bytes = seg_last.data();
            // The length read fits a `usize`.
            let _n = last_bytes.len();
            append_bytes(&mut out, last_bytes.as_slice(), 0, end as usize);
            proof {
                assert(out@ =~= self.line_bytes(line_number as int));
            }
            Some(out)
        }
    }

    /// The text of line `line_number`, invalid UTF-8 replaced, where the
    /// segments hold it.
    pub fn get_line(&self, line_number: usize) -> (r: Option<String>)
        requires
            self.wf(),
            line_number <= self.line_total(),
        ensures
            r is Some <==> self.line_readable(line_number as int),
            r matches Some(s) ==> s@ == utf8_lossy(self.line_bytes(line_number as int)),
            r matches Some(s) ==> valid_utf8(self.line_bytes(line_number as int)) ==> s@
                == decode_utf8(self.line_bytes(line_number as int)),
    {
        match self.get_bytes(line_number) {
            Some(bytes) => Some(lossy_string(bytes.as_slice())),
            None => None,
        }
    }

    /// The set of every line of the buffer.
    pub fn all_line_matches(&self) -> (r: LineSet)
        requires
            self.wf(),
        ensures
            r.wf(),
            r matches LineSet::All { buf } && buf@ == self.offsets() && buf.completed()
                == self.completed(),
    {
        LineSet::all(self.index.duplicate())
    }

    /// All the bytes of the buffer, segment after segment.
    pub fn all_bytes(&self) -> (r: Vec<u8>)
        requires
            self.wf(),
        ensures
            r@ == self.contents(),
    {
        let mut out: Vec<u8> = Vec::new();
        let n = self.map.segments.len();
        let mut i: usize = 0;
        proof {
            let size = self.map.size() as int;
            assert(0 * size == 0) by (nonlinear_arith);
            if n > 0 {
                self.map.lemma_seg(0);
            }
            assert(out@ =~= self.map.contents().subrange(0, 0));
            if n == 0 {
                assert(out@ =~= self.map.contents());
            }
        }
        while i < n
            invariant
                self.map.wf(),
                n == self.map.count(),
                i <= n,
                i < n ==> out@ == self.map.contents().subrange(
                    0,
                    self.map.segment(i as int).range_start() as int,
                ),
                i == n ==> out@ == self.map.contents(),
            decreases n - i,
        {
            proof {
                self.map.lemma_seg(i as int);
                if i + 1 < n {
                    self.map.lemma_adjacent(i as int);
                } else {
                    let size = self.map.size() as int;
                    lemma_mul_succ(i as int, size);
                }
            }
            let bytes = self.map.segments[i].data();
            // The length read fits a `usize`.
            let _len = bytes.len();
            append_bytes(&mut out, bytes.as_slice(), 0, bytes.len());
            i = i + 1;
            proof {
                if i < n {
                    assert(out@ =~= self.map.contents().subrange(
                        0,
                        self.map.segment(i as int).range_start() as int,
                    ));
                } else {
                    assert(out@ =~= self.map.contents());
                }
            }
        }
        out
    }

    /// Whether the buffer can give every line of `lines`, which a set of
    /// every line needs not.
    pub fn lines_readable(&self, lines: &LineSet) -> (r: bool)
        requires
            self.wf(),
            lines.wf(),
        ensures
            r == (lines is Subset ==> forall|j: int|
                0 <= j < lines.lines().len() ==> self.line_readable(#[trigger] lines.lines()[j] as int)),
    {
        match lines.snapshot() {
            None => true,
            Some(snap) => {
                let items = snap.as_slice();
                let mut i: usize = 0;
                while i < items.len()
                    invariant
                        self.wf(),
                        items@ == lines.lines(),
                        lines is Subset,
                        i <= items@.len(),
                        forall|j: int| 0 <= j < i ==> self.line_readable(#[trigger] items@[j] as int),
                    decreases items@.len() - i,
                {
                    let ln = items[i];
                    proof {
                        self.index.lemma_len_fits();
                    }
                    if ln >= self.index.line_count() {
                        proof {
                            assert(!self.line_readable(items@[i as int] as int));
                            assert(!self.line_readable(lines.lines()[i as int] as int));
                            assert(lines is Subset);
                        }
                        return false;
                    }
                    if self.get_bytes(ln).is_none() {
                        proof {
                            assert(!self.line_readable(items@[i as int] as int));
                            assert(!self.line_readable(lines.lines()[i as int] as int));
                            assert(lines is Subset);
                        }
                        return false;
                    }
                    i = i + 1;
                }
                true
            },
        }
    }

    /// The bytes of `lines`: the whole data for a set of every line, else
    /// those of each line in turn; an error while the set is unfinished.
    pub fn write_bytes(&self, lines: &LineSet) -> (r: Result<Vec<u8>, Error>)
        requires
            self.wf(),
            lines.wf(),
            lines is Subset ==> forall|j: int|
                0 <= j < lines.lines().len() ==> self.line_readable(#[trigger] lines.lines()[j] as int),
        ensures
            !lines.completed() ==> r == Err::<Vec<u8>, Error>(Error::InProgress),
            lines.completed() && lines is All ==> (r matches Ok(v) && v@ == self.contents()),
            lines.completed() && lines is Subset ==> (r matches Ok(v) && v@ == joined_bytes(
                *self,
                lines.lines(),
            )),
    {
        if !lines.is_complete() {
            return Err(Error::InProgress);
        }
        match lines.snapshot() {
            Some(snap) => {
                let items = snap.as_slice();
                let mut out: Vec<u8> = Vec::new();
                let mut i: usize = 0;
                while i < items.len()
                    invariant
                        self.wf(),
                        items@ == lines.lines(),
                        i <= items@.len(),
                        forall|j: int|
                            0 <= j < items@.len() ==> self.line_readable(#[trigger] items@[j] as int),
                        out@ == joined_bytes(*self, items@.take(i as int)),
                    decreases items@.len() - i,
                {
                    let ln = items[i];
                    proof {
                        assert(self.line_readable(items@[i as int] as int));
                    }
                    let line = match self.get_bytes(ln) {
                        Some(line) => line,
                        None => return Err(Error::Internal),
                    };
                    // The length read fits a `usize`.
                    let _len = line.len();
                    append_bytes(&mut out, line.as_slice(), 0, line.len());
                    proof {
                        assert(items@.take(i + 1).drop_last() =~= items@.take(i as int));
                        assert(line@.subrange(0, line@.len() as int) =~= line@);
                    }
                    i = i + 1;
                }
                proof {
                    assert(items@.take(items@.len() as int) =~= items@);
                }
                Ok(out)
            },
            None => Ok(self.all_bytes()),
        }
    }

    /// The text of `lines`, its trailing whitespace removed: the whole data
    /// for a set of every line, else the text of each line in turn; an
    /// error while the set is unfinished, or where the whole data is not
    /// valid UTF-8.
    pub fn write_to_string(&self, lines: &LineSet) -> (r: Result<String, Error>)
        requires
            self.wf(),
            lines.wf(),
            lines is Subset ==> forall|j: int|
                0 <= j < lines.lines().len() ==> self.line_readable(#[trigger] lines.lines()[j] as int),
        ensures
            !lines.completed() ==> r == Err::<String, Error>(Error::InProgress),
            lines.completed() && lines is All ==> (r is Ok <==> valid_utf8(self.contents())),
            lines.completed() && lines is All && !valid_utf8(self.contents()) ==> r == Err::<
                String,
                Error,
            >(Error::Io),
            lines.completed() && lines is All ==> (r matches Ok(s) ==> s@ == trimmed_end(
                decode_utf8(self.contents()),
            )),
            lines.completed() && lines is Subset ==> (r matches Ok(s) && s@ == trimmed_end(
                joined_text(*self, lines.lines()),
            )),
    {
        if !lines.is_complete() {
            return Err(Error::InProgress);
        }
        match lines.snapshot() {
            Some(snap) => {
                let items = snap.as_slice();
                let mut out = String::new();
                let mut i: usize = 0;
                while i < items.len()
                    invariant
                        self.wf(),
                        items@ == lines.lines(),
                        i <= items@.len(),
                        forall|j: int|
                            0 <= j < items@.len() ==> self.line_readable(#[trigger] items@[j] as int),
                        out@ == joined_text(*self, items@.take(i as int)),
                    decreases items@.len() - i,
                {
                    let ln = items[i];
                    proof {
                        assert(self.line_readable(items@[i as int] as int));
                    }
                    let line = match self.get_line(ln) {
                        Some(line) => line,
                        None => return Err(Error::Internal),
                    };
                    out.append(line.as_str());
                    proof {
                        assert(items@.take(i + 1).drop_last() =~= items@.take(i as int));
                    }
                    i = i + 1;
                }
                proof {
                    assert(items@.take(items@.len() as int) =~= items@);
                }
                Ok(trim_end(out.as_str()))
            },
            None => match strict_string(self.all_bytes()) {
                Some(text) => Ok(trim_end(text.as_str())),
                None => Err(Error::Io),
            },
        }
    }
}

/// Where the chunk of lines that starts at line `c` ends, reading no
/// further than line `e`: a line that spans segments alone, else the lines
/// up to the one holding the end of its segment.
pub open spec fn chunk_end(buf: SegBuffer, c: int, e: int) -> Option<int> {
    let offs = buf.offsets();
    let size = buf.segment_size() as int;
    if c >= e || c < 0 || c + 1 >= offs.len() {
        None
    } else {
        let seg_first = (offs[c] as int) / size;
        let seg_last = (offs[c + 1] as int) / size;
        if seg_first != seg_last {
            if seg_last < buf.segment_count() {
                Some(c + 1)
            } else {
                None
            }
        } else {
            let held = match line_holding(offs, (seg_first + 1) * size) {
                Some(k) => Some(k),
                None => if buf.completed() {
                    Some(buf.line_total() as int)
                } else {
                    None
                },
            };
            match held {
                Some(k) => if seg_first < buf.segment_count() {
                    Some(
                        if k < e {
                            k
                        } else {
                            e
                        },
                    )
                } else {
                    None
                },
                None => None,
            }
        }
    }
}

/// Bytes of whole lines that lie together: those at offsets `range`.
pub struct ContiguousSegment {
    pub range: Range<u64>,
    pub data: Vec<u8>,
}

/// Walks the lines of a buffer in chunks that lie within one segment.
pub struct ContiguousSegmentIterator<'a> {
    buf: &'a SegBuffer,
    line_range: Range<usize>,
}

impl<'a> ContiguousSegmentIterator<'a> {
    /// The buffer walked.
    pub closed spec fn buffer(&self) -> SegBuffer {
        *self.buf
    }

    /// The first line not yet walked.
    pub closed spec fn next_line(&self) -> usize {
        self.line_range.start
    }

    /// The line the walk stops at.
    pub closed spec fn end_line(&self) -> usize {
        self.line_range.end
    }

    /// The lines not yet walked.
    pub fn remaining_range(&self) -> (r: Range<usize>)
        ensures
            r.start == self.next_line(),
            r.end == self.end_line(),
    {
        self.line_range.start..self.line_range.end
    }

    /// The index of the buffer walked.
    pub fn index(&self) -> (r: &LineIndex)
        requires
            self.buffer().wf(),
        ensures
            r.wf(),
            r@ == self.buffer().offsets(),
    {
        self.buf.index()
    }

    /// The next chunk: the bytes of the lines from the first not yet walked
    /// to where `chunk_end` puts its end.
    pub fn next(&mut self) -> (r: Option<ContiguousSegment>)
        requires
            old(self).buffer().wf(),
        ensures
            final(self).buffer() == old(self).buffer(),
            final(self).end_line() == old(self).end_line(),
            r is Some <==> chunk_end(
                old(self).buffer(),
                old(self).next_line() as int,
                old(self).end_line() as int,
            ) is Some,
            r is None ==> final(self).next_line() == old(self).next_line(),
            r matches Some(seg) ==> {
                let buf = old(self).buffer();
                let c = old(self).next_line() as int;
                let n = final(self).next_line() as int;
                &&& chunk_end(buf, c, old(self).end_line() as int) == Some(n)
                &&& c < n <= old(self).end_line()
                &&& seg.range.start == buf.offsets()[c]
                &&& seg.range.end == buf.offsets()[n]
                &&& seg.data@ == buf.contents().subrange(
                    seg.range.start as int,
                    seg.range.end as int,
                )
            },
    {
        let buf = self.buf;
        if self.line_range.start >= self.line_range.end {
            return None;
        }
        let curr_line = self.line_range.start;
        proof {
            buf.index.lemma_len_fits();
            buf.index.lemma_wf_nondecreasing();
        }
        let curr_line_data_start = match buf.index.data_of_line(curr_line) {
            Some(v) => v,
            None => return None,
        };
        let curr_line_data_end = match buf.index.data_of_line(curr_line + 1) {
            Some(v) => v,
            None => return None,
        };
        proof {
            buf.lemma_offsets(curr_line as int, curr_line as int + 1);
        }
        let curr_line_seg_start = buf.segment_id(curr_line_data_start);
        let curr_line_seg_end = buf.segment_id(curr_line_data_end);
        let ghost size = buf.map.size() as int;
        proof {
            lemma_div_place(curr_line_data_start as int, size);
            lemma_div_place(curr_line_data_end as int, size);
            buf.map.lemma_locate(curr_line_data_start as int);
            buf.map.lemma_locate(curr_line_data_end as int);
        }
        if curr_line_seg_end != curr_line_seg_start {
            let data = match buf.get_bytes(curr_line) {
                Some(data) => data,
                None => return None,
            };
            self.line_range.start = curr_line + 1;
            Some(ContiguousSegment { range: curr_line_data_start..curr_line_data_end, data })
        } else {
            match buf.chunk_within(curr_line, self.line_range.end, curr_line_seg_start) {
                Some((line_end, chunk)) => {
                    self.line_range.start = line_end;
                    Some(chunk)
                },
                None => None,
            }
        }
    }
}

impl SegBuffer {
    /// The chunk that starts at line `c`, whose line lies in segment `seg`:
    /// the lines up to the one holding the end of the segment, or to `e`.
    fn chunk_within(&self, c: usize, e: usize, seg: usize) -> (r: Option<(usize, ContiguousSegment)>)
        requires
            self.wf(),
            c < e,
            c + 1 < self.offsets().len(),
            seg == (self.offsets()[c as int] as int) / (self.segment_size() as int),
            seg == (self.offsets()[c + 1] as int) / (self.segment_size() as int),
        ensures
            r is Some <==> chunk_end(*self, c as int, e as int) is Some,
            r matches Some((n, chunk)) ==> {
                &&& chunk_end(*self, c as int, e as int) == Some(n as int)
                &&& c < n <= e
                &&& chunk.range.start == self.offsets()[c as int]
                &&& chunk.range.end == self.offsets()[n as int]
                &&& chunk.data@ == self.contents().subrange(
                    chunk.range.start as int,
                    chunk.range.end as int,
                )
            },
    {
        let ghost size = self.map.size() as int;
        let ghost offs = self.offsets();
        proof {
            self.index.lemma_len_fits();
            self.index.lemma_wf_nondecreasing();
            self.lemma_offsets(c as int, c as int + 1);
            lemma_div_place(offs[c as int] as int, size);
            lemma_div_place(offs[c + 1] as int, size);
            self.map.lemma_locate(offs[c as int] as int);
            lemma_mul_succ(seg as int, size);
            lemma_mul_le(0, seg as int, size);
        }
        let data_start = match self.index.data_of_line(c) {
            Some(v) => v,
            None => return None,
        };
        let seg_data_start = seg as u64 * self.map.segment_size;
        let seg_data_end = seg_data_start + self.map.segment_size;
        let line_end0 = match self.index.line_of_data(seg_data_end) {
            Some(k) => {
                proof {
                    lemma_line_holding_unique(offs, seg_data_end as int, k as int);
                    if k <= c {
                        assert(offs[k + 1] <= offs[c + 1]);
                    }
                }
                k
            },
            None => {
                proof {
                    if line_holding(offs, seg_data_end as int) is Some {
                        let k = line_holding(offs, seg_data_end as int)->0;
                        assert(holds_byte(offs, k, seg_data_end as int));
                    }
                }
                if self.index.is_complete() {
                    proof {
                        lemma_no_holder(offs, seg_data_end as int, c as int);
                    }
                    self.index.line_count()
                } else {
                    return None;
                }
            },
        };
        let line_end = if line_end0 < e {
            line_end0
        } else {
            e
        };
        let line_end_data_start = match self.index.data_of_line(line_end) {
            Some(v) => v,
            None => return None,
        };
        let segment = match self.map.fetch(seg) {
            Some(segment) => segment,
            None => return None,
        };
        proof {
            self.map.lemma_seg(seg as int);
            self.lemma_offsets(c as int, line_end as int);
            if line_end < line_end0 {
                self.lemma_offsets(line_end as int, line_end0 as int);
            }
        }
        let range = segment.translate_inner_data_range(data_start, line_end_data_start);
        let bytes = segment.data();
        // The length read fits a `usize`.
        let _len = bytes.len();
        let mut out: Vec<u8> = Vec::new();
        append_bytes(&mut out, bytes.as_slice(), range.start as usize, range.end as usize);
        proof {
            assert(out@ =~= self.contents().subrange(data_start as int, line_end_data_start as int));
        }
        Some((line_end, ContiguousSegment { range: data_start..line_end_data_start, data: out }))
    }
}

/// The bytes of the first `n` lines, one after another, run from the start
/// of line 0 to the start of line `n`.
proof fn lemma_joined_prefix(buf: SegBuffer, n: int)
    requires
        buf.wf(),
        0 <= n < buf.offsets().len(),
    ensures
        joined_bytes(buf, first_lines(n as nat)) == buf.contents().subrange(
            buf.offsets()[0] as int,
            buf.offsets()[n] as int,
        ),
    decreases n,
{
    buf.lemma_offsets(0, n);
    buf.index.lemma_len_fits();
    if n > 0 {
        lemma_joined_prefix(buf, n - 1);
        buf.lemma_offsets(0, n - 1);
        buf.lemma_offsets(n - 1, n);
        assert(first_lines(n as nat).drop_last() =~= first_lines((n - 1) as nat));
        assert(first_lines(n as nat).last() == (n - 1) as usize);
        let f = first_lines(n as nat);
        assert(joined_bytes(buf, f) == joined_bytes(buf, f.drop_last()) + buf.line_bytes(
            f.last() as int,
        ));
        let c = buf.contents();
        let o = buf.offsets();
        assert(c.subrange(o[0] as int, o[n - 1] as int) + c.subrange(o[n - 1] as int, o[n] as int)
            =~= c.subrange(o[0] as int, o[n] as int));
        assert(joined_bytes(buf, first_lines(n as nat)) =~= buf.contents().subrange(
            buf.offsets()[0] as int,
            buf.offsets()[n] as int,
        ));
    } else {
        assert(first_lines(0) =~= Seq::<usize>::empty());
        assert(buf.contents().subrange(buf.offsets()[0] as int, buf.offsets()[0] as int) =~= Seq::<
            u8,
        >::empty());
    }
}

/// Where the index runs from the start of the data to its end, the bytes
/// of every line, one after another, are the whole data: writing the set of
/// every line gives what writing each line in turn gives.
pub proof fn law_lines_rejoin(buf: SegBuffer)
    requires
        buf.wf(),
        buf.offsets().len() > 0,
        buf.offsets()[0] == 0,
        buf.offsets().last() == buf.contents().len(),
    ensures
        joined_bytes(buf, first_lines(buf.line_total())) == buf.contents(),
{
    let n = buf.offsets().len() - 1;
    lemma_joined_prefix(buf, n);
    assert(buf.contents().subrange(0, buf.contents().len() as int) =~= buf.contents());
}

/// Once the index is complete, the walk yields a chunk at each line before
/// its end exactly when the segment holding that line's end is present.
pub proof fn law_chunk_iff_readable(buf: SegBuffer, c: int, e: int)
    requires
        buf.wf(),
        buf.completed(),
        0 <= c < e,
    ensures
        chunk_end(buf, c, e) is Some <==> buf.line_readable(c),
{
}

/// The bytes a walk from line `c`, reading no further than line `e`,
/// yields: each chunk's bytes in turn until the walk stops.
pub open spec fn walk(buf: SegBuffer, c: int, e: int) -> Seq<u8>
    decreases e - c,
{
    match chunk_end(buf, c, e) {
        Some(n) => if c < n {
            buf.contents().subrange(buf.offsets()[c] as int, buf.offsets()[n] as int) + walk(buf, n, e)
        } else {
            Seq::empty()
        },
        None => Seq::empty(),
    }
}

/// The chunks a walk yields from line `c` run to the start of the last
/// line's end, where every line is readable.
proof fn lemma_walk_rest(buf: SegBuffer, c: int)
    requires
        buf.wf(),
        buf.completed(),
        buf.offsets().len() > 0,
        0 <= c <= buf.line_total(),
        forall|ln: int| 0 <= ln < buf.line_total() ==> #[trigger] buf.line_readable(ln),
    ensures
        walk(buf, c, usize::MAX as int) == buf.contents().subrange(
            buf.offsets()[c] as int,
            buf.offsets()[buf.line_total() as int] as int,
        ),
    decreases buf.line_total() - c,
{
    let e = usize::MAX as int;
    let t = buf.line_total() as int;
    buf.index.lemma_len_fits();
    buf.lemma_offsets(c, t);
    if c < t {
        assert(buf.line_readable(c));
        law_chunk_iff_readable(buf, c, e);
        let n = chunk_end(buf, c, e)->0;
        assert(c < n <= t) by {
            let offs = buf.offsets();
            let size = buf.segment_size() as int;
            let first = (offs[c] as int) / size;
            let last = (offs[c + 1] as int) / size;
            buf.index.lemma_wf_nondecreasing();
            if first == last {
                let p = (first + 1) * size;
                lemma_div_place(offs[c + 1] as int, size);
                lemma_mul_succ(first, size);
                match line_holding(offs, p) {
                    Some(k) => {
                        assert(holds_byte(offs, k, p)) by {
                            let j = choose|j: int| #[trigger] holds_byte(offs, j, p);
                            assert(holds_byte(offs, j, p));
                        }
                        if k <= c {
                            assert(offs[k + 1] <= offs[c + 1]);
                        }
                    },
                    None => {},
                }
            }
        }
        lemma_walk_rest(buf, n);
        buf.lemma_offsets(c, n);
        buf.lemma_offsets(n, t);
        let d = buf.contents();
        let o = buf.offsets();
        assert(d.subrange(o[c] as int, o[n] as int) + d.subrange(o[n] as int, o[t] as int) =~= d.subrange(
            o[c] as int,
            o[t] as int,
        ));
    } else {
        assert(chunk_end(buf, c, e) is None);
        assert(buf.contents().subrange(buf.offsets()[c] as int, buf.offsets()[c] as int) =~= Seq::<
            u8,
        >::empty());
    }
}

/// A complete buffer whose lines are all readable, indexed from the start
/// of its data to its end, is walked whole: the chunks, one after another,
/// are its data.
pub proof fn law_walk_covers_data(buf: SegBuffer)
    requires
        buf.wf(),
        buf.completed(),
        buf.offsets().len() > 0,
        buf.offsets()[0] == 0,
        buf.offsets().last() == buf.contents().len(),
        forall|ln: int| 0 <= ln < buf.line_total() ==> #[trigger] buf.line_readable(ln),
    ensures
        walk(buf, 0, usize::MAX as int) == buf.contents(),
{
    lemma_walk_rest(buf, 0);
    assert(buf.contents().subrange(0, buf.contents().len() as int) =~= buf.contents());
}

/// Two buffers of the same data and line starts, whatever their segment
/// sizes, give the same bytes for each line.
pub proof fn law_lines_independent_of_segments(a: SegBuffer, b: SegBuffer, ln: int)
    requires
        a.contents() == b.contents(),
        a.offsets() == b.offsets(),
        a.line_readable(ln),
        b.line_readable(ln),
    ensures
        a.line_bytes(ln) == b.line_bytes(ln),
{
}

impl SegBuffer {
    /// A walk over every line of the buffer in contiguous chunks.
    pub fn segment_iter(&self) -> (r: ContiguousSegmentIterator<'_>)
        requires
            self.wf(),
        ensures
            r.buffer() == *self,
            r.next_line() == 0,
            r.end_line() == usize::MAX,
    {
        ContiguousSegmentIterator { buf: self, line_range: 0..usize::MAX }
    }
}

} // verus!
