use vstd::prelude::*;
use vstd::std_specs::iter::IteratorSpec;

use crate::cursor::{back_arg, back_spec, forward_spec, Cursor, CursorState};

verus! {

/// The number of bytes of the UTF-8 encoding of `c`.
pub open spec fn char_width(c: char) -> nat {
    if (c as u32) < 0x80 {
        1
    } else if (c as u32) < 0x800 {
        2
    } else if (c as u32) < 0x10000 {
        3
    } else {
        4
    }
}

/// The number of bytes of the UTF-8 encoding of `s`.
pub open spec fn byte_len(s: Seq<char>) -> nat
    decreases s.len(),
{
    if s.len() == 0 {
        0
    } else {
        byte_len(s.drop_last()) + char_width(s.last())
    }
}

/// The byte offset at which character `k` of `s` starts.
pub open spec fn offset(s: Seq<char>, k: int) -> nat {
    byte_len(s.take(k))
}

/// `i` is the byte offset of a character of `s`, or of its end.
pub open spec fn is_boundary(s: Seq<char>, i: int) -> bool {
    exists|k: int| 0 <= k <= s.len() && offset(s, k) == i
}

/// The character whose byte offset is `i`.
pub open spec fn char_index(s: Seq<char>, i: int) -> int {
    choose|k: int| 0 <= k <= s.len() && offset(s, k) == i
}

/// Whether `c` has the Unicode `White_Space` property: the controls from
/// tab to carriage return, the space, next line, the no-break spaces, the
/// Ogham space mark, the spaces from en quad to hair space, the line and
/// paragraph separators, and the medium mathematical and ideographic
/// spaces.
pub open spec fn is_whitespace_char(c: char) -> bool {
    let u = c as u32;
    ||| 0x09 <= u <= 0x0d
    ||| u == 0x20
    ||| u == 0x85
    ||| u == 0xa0
    ||| u == 0x1680
    ||| 0x2000 <= u <= 0x200a
    ||| u == 0x2028
    ||| u == 0x2029
    ||| u == 0x202f
    ||| u == 0x205f
    ||| u == 0x3000
}

/// Whether `c` is alphabetic or numeric in the Unicode sense.
pub uninterp spec fn is_alphanumeric_char(c: char) -> bool;

/// Whether `c` has the Unicode `White_Space` property.
fn char_is_whitespace(c: char) -> (r: bool)
    ensures
        r == is_whitespace_char(c),
{
    let u = c as u32;
    (0x09 <= u && u <= 0x0d) || u == 0x20 || u == 0x85 || u == 0xa0 || u == 0x1680 || (0x2000 <= u && u
        <= 0x200a) || u == 0x2028 || u == 0x2029 || u == 0x202f || u == 0x205f || u == 0x3000
}

/// Calls `char::is_alphanumeric`: whether `c` is alphabetic or numeric.
/// The contract names the answer and says nothing more of it.
#[verifier::external_body]
fn char_is_alphanumeric(c: char) -> (r: bool)
    ensures
        r == is_alphanumeric_char(c),
{
    c.is_alphanumeric()
}

/// Calls `String::push`, which appends `c` to the string.
#[verifier::external_body]
fn string_push(s: &mut String, c: char)
    ensures
        final(s)@ == old(s)@.push(c),
{
    s.push(c)
}

/// The kinds of character the cursor's word moves look for.
#[derive(Clone, Copy, PartialEq, Eq, Debug, Structural)]
pub enum CharClass {
    Whitespace,
    Alphanumeric,
    Space,
}

/// Whether `c` belongs to class `cc`.
pub open spec fn in_class(cc: CharClass, c: char) -> bool {
    match cc {
        CharClass::Whitespace => is_whitespace_char(c),
        CharClass::Alphanumeric => is_alphanumeric_char(c),
        CharClass::Space => c == ' ',
    }
}

/// Whether `c` belongs to class `cc`.
fn class_holds(cc: CharClass, c: char) -> (r: bool)
    ensures
        r == in_class(cc, c),
{
    match cc {
        CharClass::Whitespace => char_is_whitespace(c),
        CharClass::Alphanumeric => char_is_alphanumeric(c),
        CharClass::Space => c == ' ',
    }
}

/// The position of the last character before `k` of class `cc`, or -1
/// when there is none.
pub open spec fn last_before(s: Seq<char>, k: int, cc: CharClass) -> int
    decreases k,
{
    if k <= 0 {
        -1
    } else if in_class(cc, s[k - 1]) {
        k - 1
    } else {
        last_before(s, k - 1, cc)
    }
}

/// The position of the first character at or after `k` of class `cc`, or
/// -1 when there is none.
pub open spec fn first_from(s: Seq<char>, k: int, cc: CharClass) -> int
    decreases s.len() - k,
{
    if k < 0 || k >= s.len() {
        -1
    } else if in_class(cc, s[k]) {
        k
    } else {
        first_from(s, k + 1, cc)
    }
}

pub proof fn lemma_last_before_range(s: Seq<char>, k: int, cc: CharClass)
    ensures
        -1 <= last_before(s, k, cc) < k || (k <= 0 && last_before(s, k, cc) == -1),
        last_before(s, k, cc) >= 0 ==> in_class(cc, s[last_before(s, k, cc)]),
    decreases k,
{
    if k > 0 && !in_class(cc, s[k - 1]) {
        lemma_last_before_range(s, k - 1, cc);
    }
}

pub proof fn lemma_first_from_range(s: Seq<char>, k: int, cc: CharClass)
    requires
        0 <= k,
    ensures
        first_from(s, k, cc) == -1 || k <= first_from(s, k, cc) < s.len(),
    decreases s.len() - k,
{
    if k < s.len() && !in_class(cc, s[k]) {
        lemma_first_from_range(s, k + 1, cc);
    }
}

/// The bytes of a concatenation add up.
pub proof fn lemma_byte_len_concat(a: Seq<char>, b: Seq<char>)
    ensures
        byte_len(a + b) == byte_len(a) + byte_len(b),
    decreases b.len(),
{
    if b.len() == 0 {
        assert(a + b =~= a);
    } else {
        assert((a + b).drop_last() =~= a + b.drop_last());
        lemma_byte_len_concat(a, b.drop_last());
    }
}

/// The offset of the next character adds the width of this one.
pub proof fn lemma_offset_step(s: Seq<char>, k: int)
    requires
        0 <= k < s.len(),
    ensures
        offset(s, k + 1) == offset(s, k) + char_width(s[k]),
{
    assert(s.take(k + 1).drop_last() =~= s.take(k));
}

/// Offsets grow strictly with the character position.
pub proof fn lemma_offset_mono(s: Seq<char>, j: int, k: int)
    requires
        0 <= j <= k <= s.len(),
    ensures
        offset(s, j) + (k - j) <= offset(s, k),
        j < k ==> offset(s, j) < offset(s, k),
    decreases k - j,
{
    if j < k {
        lemma_offset_mono(s, j, k - 1);
        lemma_offset_step(s, k - 1);
    }
}

/// The offset of the end is the length of the whole.
pub proof fn lemma_offset_end(s: Seq<char>)
    ensures
        offset(s, s.len() as int) == byte_len(s),
{
    assert(s.take(s.len() as int) =~= s);
}

/// A boundary belongs to exactly one character position.
pub proof fn lemma_char_index(s: Seq<char>, k: int)
    requires
        0 <= k <= s.len(),
    ensures
        is_boundary(s, offset(s, k) as int),
        char_index(s, offset(s, k) as int) == k,
{
    let i = offset(s, k) as int;
    assert(is_boundary(s, i));
    let c = char_index(s, i);
    if c < k {
        lemma_offset_mono(s, c, k);
    } else if c > k {
        lemma_offset_mono(s, k, c);
    }
}

/// The characters of `s`, in order.
pub fn chars_of(s: &str) -> (r: Vec<char>)
    ensures
        r@ == s@,
{
    let mut out: Vec<char> = Vec::new();
    let mut it = s.chars();
    loop
        invariant
            out@ + it.remaining() == s@,
            it.obeys_prophetic_iter_laws(),
            it.decrease() is Some,
        ensures
            out@ == s@,
        decreases it.decrease()->0,
    {
        let ghost before = it.remaining();
        match it.next() {
            Some(c) => {
                proof {
                    assert(out@.push(c) + it.remaining() =~= out@ + before);
                }
                out.push(c);
            },
            None => {
                assert(out@ + it.remaining() =~= out@);
                break;
            },
        }
    }
    out
}

/// The text of `a` followed by the text of `b`.
pub fn concat(a: &str, b: &str) -> (r: String)
    ensures
        r@ == a@ + b@,
{
    let mut out = a.to_owned();
    let chars = chars_of(b);
    let mut i: usize = 0;
    while i < chars.len()
        invariant
            i <= chars@.len(),
            chars@ == b@,
            out@ == a@ + chars@.take(i as int),
        decreases chars@.len() - i,
    {
        string_push(&mut out, chars[i]);
        proof {
            assert(chars@.take(i + 1) =~= chars@.take(i as int).push(chars@[i as int]));
        }
        i = i + 1;
    }
    proof {
        assert(chars@.take(chars@.len() as int) =~= chars@);
    }
    out
}

/// The number of bytes of the UTF-8 encoding of `s`, if it fits.
pub fn byte_len_of(s: &str) -> (r: Option<usize>)
    ensures
        r matches Some(n) ==> n == byte_len(s@),
        r is None ==> byte_len(s@) > usize::MAX,
{
    let chars = chars_of(s);
    let mut n: usize = 0;
    let mut i: usize = 0;
    while i < chars.len()
        invariant
            i <= chars@.len(),
            chars@ == s@,
            n == byte_len(chars@.take(i as int)),
        decreases chars@.len() - i,
    {
        proof {
            assert(chars@.take(i + 1).drop_last() =~= chars@.take(i as int));
        }
        let w = width_of(chars[i]);
        match n.checked_add(w) {
            Some(m) => n = m,
            None => {
                proof {
                    lemma_offset_mono(chars@, i + 1, chars@.len() as int);
                    lemma_offset_end(chars@);
                }
                return None;
            },
        }
        i = i + 1;
    }
    proof {
        assert(chars@.take(chars@.len() as int) =~= chars@);
    }
    Some(n)
}

/// The string of the given characters.
pub fn string_of(chars: &Vec<char>) -> (r: String)
    ensures
        r@ == chars@,
{
    let mut out = String::new();
    let mut i: usize = 0;
    while i < chars.len()
        invariant
            i <= chars@.len(),
            out@ == chars@.take(i as int),
        decreases chars@.len() - i,
    {
        string_push(&mut out, chars[i]);
        i = i + 1;
        proof {
            assert(out@ =~= chars@.take(i as int));
        }
    }
    proof {
        assert(chars@.take(chars@.len() as int) =~= chars@);
    }
    out
}

/// Whether `c` has the Unicode `White_Space` property.
pub fn is_whitespace(c: char) -> (r: bool)
    ensures
        r == is_whitespace_char(c),
{
    char_is_whitespace(c)
}

/// The number of bytes of the UTF-8 encoding of `c`.
pub fn width_of(c: char) -> (r: usize)
    ensures
        r == char_width(c),
{
    let u = c as u32;
    if u < 0x80 {
        1
    } else if u < 0x800 {
        2
    } else if u < 0x10000 {
        3
    } else {
        4
    }
}

/// A line of text, kept as a string and as its characters.
pub struct TextBuf {
    chars: Vec<char>,
    text: String,
    bytes: usize,
}

impl View for TextBuf {
    type V = Seq<char>;

    closed spec fn view(&self) -> Seq<char> {
        self.chars@
    }
}

impl TextBuf {
    /// The string holds the characters, and its byte length is recorded and
    /// leaves room for one more byte.
    pub closed spec fn wf(&self) -> bool {
        &&& self.text@ == self.chars@
        &&& self.bytes == byte_len(self.chars@)
        &&& byte_len(self.chars@) < usize::MAX
    }

    /// The empty line.
    pub fn new() -> (r: Self)
        ensures
            r.wf(),
            r@ == Seq::<char>::empty(),
    {
        TextBuf { chars: Vec::new(), text: String::new(), bytes: 0 }
    }

    /// The line holding `chars`.
    pub fn from_chars(chars: Vec<char>) -> (r: Self)
        requires
            byte_len(chars@) < usize::MAX,
        ensures
            r.wf(),
            r@ == chars@,
    {
        let n = chars.len();
        let mut text = String::new();
        let mut bytes: usize = 0;
        let mut i: usize = 0;
        while i < n
            invariant
                i <= n == chars@.len(),
                text@ == chars@.take(i as int),
                bytes == byte_len(chars@.take(i as int)),
                byte_len(chars@) < usize::MAX,
            decreases n - i,
        {
            let c = chars[i];
            proof {
                assert(chars@.take(i + 1).drop_last() =~= chars@.take(i as int));
                lemma_offset_mono(chars@, i + 1, n as int);
                lemma_offset_end(chars@);
            }
            string_push(&mut text, c);
            bytes = bytes + width_of(c);
            i = i + 1;
            proof {
                assert(chars@.take(i - 1).push(c) =~= chars@.take(i as int));
            }
        }
        proof {
            assert(chars@.take(n as int) =~= chars@);
        }
        TextBuf { chars, text, bytes }
    }

    /// The line holding the characters of `s`.
    pub fn from_str(s: &str) -> (r: Self)
        requires
            byte_len(s@) < usize::MAX,
        ensures
            r.wf(),
            r@ == s@,
    {
        TextBuf::from_chars(chars_of(s))
    }

    /// The line as a string slice.
    pub fn as_str(&self) -> (r: &str)
        requires
            self.wf(),
        ensures
            r@ == self@,
    {
        self.text.as_str()
    }

    /// The line as a string.
    pub fn to_string(&self) -> (r: String)
        requires
            self.wf(),
        ensures
            r@ == self@,
    {
        self.text.clone()
    }

    /// The number of bytes of the line.
    pub fn len(&self) -> (r: usize)
        requires
            self.wf(),
        ensures
            r == byte_len(self@),
    {
        self.bytes
    }

    /// The number of characters of the line.
    pub fn char_count(&self) -> (r: usize)
        ensures
            r == self@.len(),
    {
        self.chars.len()
    }

    /// The character at position `k`.
    pub fn char_at(&self, k: usize) -> (r: char)
        requires
            k < self@.len(),
        ensures
            r == self@[k as int],
    {
        self.chars[k]
    }

    /// Whether the two lines hold the same text.
    pub fn same_text(&self, other: &TextBuf) -> (r: bool)
        requires
            self.wf(),
            other.wf(),
        ensures
            r == (self@ == other@),
    {
        self.text == other.text
    }

    /// The byte offset of character `k`.
    pub fn offset_of(&self, k: usize) -> (r: usize)
        requires
            self.wf(),
            k <= self@.len(),
        ensures
            r == offset(self@, k as int),
    {
        let mut off: usize = 0;
        let mut j: usize = 0;
        while j < k
            invariant
                j <= k <= self.chars@.len(),
                off == offset(self.chars@, j as int),
                self.wf(),
            decreases k - j,
        {
            proof {
                lemma_offset_step(self.chars@, j as int);
                lemma_offset_mono(self.chars@, j + 1, self.chars@.len() as int);
                lemma_offset_end(self.chars@);
            }
            off = off + width_of(self.chars[j]);
            j = j + 1;
        }
        off
    }

    /// Whether `i` is the byte offset of a character or of the end.
    pub fn is_char_boundary(&self, i: usize) -> (r: bool)
        requires
            self.wf(),
        ensures
            r == is_boundary(self@, i as int),
    {
        let ghost s = self.chars@;
        let mut off: usize = 0;
        let mut k: usize = 0;
        let n = self.chars.len();
        while off < i && k < n
            invariant
                k <= n == s.len(),
                off == offset(s, k as int),
                self.chars@ == s,
                self.wf(),
                forall|j: int| 0 <= j < k ==> offset(s, j) < i,
            decreases n - k,
        {
            proof {
                lemma_offset_step(s, k as int);
                lemma_offset_mono(s, k + 1, s.len() as int);
                lemma_offset_end(s);
            }
            off = off + width_of(self.chars[k]);
            k = k + 1;
        }
        proof {
            if off != i {
                assert forall|j: int| 0 <= j <= s.len() implies offset(s, j) != i by {
                    if j > k {
                        lemma_offset_mono(s, k as int, j);
                    }
                }
            }
        }
        off == i
    }

    /// The position of the character at byte offset `i`.
    pub fn index_of(&self, i: usize) -> (k: usize)
        requires
            self.wf(),
            is_boundary(self@, i as int),
        ensures
            k <= self@.len(),
            offset(self@, k as int) == i,
            k == char_index(self@, i as int),
    {
        let ghost s = self.chars@;
        let ghost target = char_index(s, i as int);
        let mut off: usize = 0;
        let mut k: usize = 0;
        assert(s.len() == self.chars.len());
        while off < i
            invariant
                k <= target <= s.len(),
                s.len() <= usize::MAX,
                offset(s, target) == i,
                off == offset(s, k as int),
                self.chars@ == s,
            decreases i - off,
        {
            proof {
                if k == target {
                    assert(false);
                }
                lemma_offset_step(s, k as int);
                lemma_offset_mono(s, k + 1, target);
            }
            off = off + width_of(self.chars[k]);
            k = k + 1;
        }
        proof {
            if k < target {
                lemma_offset_mono(s, k as int, target);
            }
            lemma_char_index(s, k as int);
        }
        k
    }

    /// Replaces characters `a..b` by `input`.
    pub fn splice(&mut self, a: usize, b: usize, input: &Vec<char>)
        requires
            old(self).wf(),
            a <= b <= old(self)@.len(),
            byte_len(old(self)@.take(a as int) + input@ + old(self)@.skip(b as int)) < usize::MAX,
        ensures
            final(self).wf(),
            final(self)@ == old(self)@.take(a as int) + input@ + old(self)@.skip(b as int),
    {
        let mut out: Vec<char> = Vec::new();
        let mut j: usize = 0;
        while j < a
            invariant
                j <= a <= b <= self.chars@.len(),
                out@ == self.chars@.take(j as int),
            decreases a - j,
        {
            out.push(self.chars[j]);
            j = j + 1;
            proof {
                assert(out@ =~= self.chars@.take(j as int));
            }
        }
        let mut j: usize = 0;
        while j < input.len()
            invariant
                j <= input@.len(),
                a <= self.chars@.len(),
                out@ == self.chars@.take(a as int) + input@.take(j as int),
            decreases input@.len() - j,
        {
            out.push(input[j]);
            j = j + 1;
            proof {
                assert(out@ =~= self.chars@.take(a as int) + input@.take(j as int));
            }
        }
        let n = self.chars.len();
        let mut j: usize = b;
        while j < n
            invariant
                b <= j <= n == self.chars@.len(),
                a <= b,
                out@ == self.chars@.take(a as int) + input@ + self.chars@.subrange(b as int, j as int),
            decreases n - j,
        {
            proof {
                assert(input@.take(input@.len() as int) =~= input@);
            }
            out.push(self.chars[j]);
            j = j + 1;
            proof {
                assert(out@ =~= self.chars@.take(a as int) + input@ + self.chars@.subrange(b as int, j as int));
            }
        }
        proof {
            assert(input@.take(input@.len() as int) =~= input@);
            assert(self.chars@.subrange(b as int, n as int) =~= self.chars@.skip(b as int));
        }
        *self = TextBuf::from_chars(out);
    }

    /// The position of the last character before `k` of class `cc`.
    pub fn find_last_before(&self, k: usize, cc: CharClass) -> (r: Option<usize>)
        requires
            k <= self@.len(),
        ensures
            r matches Some(j) ==> last_before(self@, k as int, cc) == j,
            r is None ==> last_before(self@, k as int, cc) == -1,
    {
        let mut j: usize = k;
        while j > 0
            invariant
                j <= k <= self.chars@.len(),
                last_before(self.chars@, k as int, cc) == last_before(self.chars@, j as int, cc),
            decreases j,
        {
            if class_holds(cc, self.chars[j - 1]) {
                return Some(j - 1);
            }
            j = j - 1;
        }
        None
    }

    /// The position of the first character at or after `k` of class `cc`.
    pub fn find_first_from(&self, k: usize, cc: CharClass) -> (r: Option<usize>)
        requires
            k <= self@.len(),
        ensures
            r matches Some(j) ==> first_from(self@, k as int, cc) == j,
            r is None ==> first_from(self@, k as int, cc) == -1,
    {
        let n = self.chars.len();
        let mut j: usize = k;
        while j < n
            invariant
                k <= j <= n == self.chars@.len(),
                first_from(self.chars@, k as int, cc) == first_from(self.chars@, j as int, cc),
            decreases n - j,
        {
            if class_holds(cc, self.chars[j]) {
                return Some(j);
            }
            j = j + 1;
        }
        None
    }

    /// A copy of the line.
    pub fn duplicate(&self) -> (r: TextBuf)
        requires
            self.wf(),
        ensures
            r.wf(),
            r@ == self@,
    {
        let n = self.chars.len();
        let mut chars: Vec<char> = Vec::new();
        let mut i: usize = 0;
        while i < n
            invariant
                i <= n == self.chars@.len(),
                chars@ == self.chars@.take(i as int),
            decreases n - i,
        {
            chars.push(self.chars[i]);
            i = i + 1;
            proof {
                assert(chars@ =~= self.chars@.take(i as int));
            }
        }
        proof {
            assert(self.chars@.take(n as int) =~= self.chars@);
        }
        TextBuf::from_chars(chars)
    }

    /// The line's string, taken out of it.
    pub fn into_string(self) -> (r: String)
        requires
            self.wf(),
        ensures
            r@ == self@,
    {
        self.text
    }
}

/// How far a cursor move goes: a number of characters, to the next word,
/// or to the end of the line.
#[derive(Clone, Copy, PartialEq, Eq, Debug, Structural)]
pub enum Motion {
    Chars(usize),
    Word,
    Boundary,
}

/// The smaller of two integers.
pub open spec fn min_int(a: int, b: int) -> int {
    if a < b {
        a
    } else {
        b
    }
}

/// Where a backward move from byte offset `i` of `s` lands.
///
/// A word move from after whitespace goes back by as many bytes as there
/// are characters between the last letter or digit and `i` (by bytes only
/// where those characters take one byte each); otherwise it goes to just
/// after the last space, or to the start.
pub open spec fn back_target(s: Seq<char>, i: int, m: Motion) -> int {
    let k = char_index(s, i);
    match m {
        Motion::Boundary => 0,
        Motion::Chars(d) => offset(s, k - min_int(d as int, k)) as int,
        Motion::Word => if k > 0 && is_whitespace_char(s[k - 1]) {
            let j = last_before(s, k, CharClass::Alphanumeric);
            if j < 0 {
                i
            } else {
                i - ((k - 1) - j)
            }
        } else {
            let j = last_before(s, k, CharClass::Space);
            if j < 0 {
                0
            } else {
                offset(s, j) + 1int
            }
        },
    }
}

/// Where a forward word move from byte offset `i` of `s` lands when the
/// character there is not whitespace: the byte offset past `i` plus the
/// number of characters up to the next whitespace, at most the end.
pub open spec fn word_forward_from_text(s: Seq<char>, i: int) -> int {
    let st = min_int(i + 1, byte_len(s) as int);
    let k1 = char_index(s, st);
    let j = first_from(s, k1, CharClass::Whitespace);
    if j < 0 {
        byte_len(s) as int
    } else {
        min_int((j - k1) + i + 1, byte_len(s) as int)
    }
}

/// Where a forward move from byte offset `i` of `s` lands.
///
/// A word move from whitespace goes forward by as many bytes as there are
/// characters up to the next letter or digit, at most to the end.
pub open spec fn forward_target(s: Seq<char>, i: int, m: Motion) -> int {
    let k = char_index(s, i);
    match m {
        Motion::Boundary => byte_len(s) as int,
        Motion::Chars(d) => offset(s, min_int(k + d, s.len() as int)) as int,
        Motion::Word => if k < s.len() && is_whitespace_char(s[k]) {
            let j = first_from(s, k, CharClass::Alphanumeric);
            if j < 0 {
                byte_len(s) as int
            } else {
                min_int(i + (j - k), byte_len(s) as int)
            }
        } else {
            word_forward_from_text(s, i)
        },
    }
}

/// A backward move from `i` reads the text before `i`, which needs `i` to
/// be a character boundary, except for a move to the start.
pub open spec fn back_ok(s: Seq<char>, i: int, m: Motion) -> bool {
    m is Boundary || is_boundary(s, i)
}

/// A forward move from `i` reads the text after `i`, which needs `i` to be
/// a character boundary, except for a move to the end; a word move from a
/// character that is not whitespace also reads from the byte after `i`,
/// which must be a boundary too, and adds without overflow.
pub open spec fn forward_ok(s: Seq<char>, i: int, m: Motion) -> bool {
    ||| m is Boundary
    ||| {
        &&& is_boundary(s, i)
        &&& m is Word ==> {
            let k = char_index(s, i);
            ||| (k < s.len() && is_whitespace_char(s[k]))
            ||| {
                let st = min_int(i + 1, byte_len(s) as int);
                let k1 = char_index(s, st);
                let j = first_from(s, k1, CharClass::Whitespace);
                &&& is_boundary(s, st)
                &&& (j < 0 || (j - k1) + i + 1 <= usize::MAX)
            }
        }
    }
}

/// Where a backward move from `i` lands.
pub fn back_target_of(t: &TextBuf, i: usize, m: Motion) -> (r: usize)
    requires
        t.wf(),
        back_ok(t@, i as int, m),
    ensures
        r == back_target(t@, i as int, m),
        is_boundary(t@, i as int) ==> r <= i,
{
    match m {
        Motion::Boundary => 0,
        Motion::Chars(d) => {
            let k = t.index_of(i);
            let back = if d < k {
                d
            } else {
                k
            };
            proof {
                lemma_offset_mono(t@, (k - back) as int, k as int);
            }
            t.offset_of(k - back)
        },
        Motion::Word => {
            let k = t.index_of(i);
            proof {
                lemma_offset_mono(t@, 0, k as int);
            }
            if k > 0 && char_is_whitespace(t.char_at(k - 1)) {
                match t.find_last_before(k, CharClass::Alphanumeric) {
                    None => i,
                    Some(j) => {
                        proof {
                            lemma_last_before_range(t@, k as int, CharClass::Alphanumeric);
                        }
                        i - ((k - 1) - j)
                    },
                }
            } else {
                match t.find_last_before(k, CharClass::Space) {
                    None => 0,
                    Some(j) => {
                        proof {
                            lemma_last_before_range(t@, k as int, CharClass::Space);
                            lemma_offset_step(t@, j as int);
                            lemma_offset_mono(t@, j + 1, k as int);
                        }
                        t.offset_of(j) + 1
                    },
                }
            }
        },
    }
}

/// Where a forward move from `i` lands.
pub fn forward_target_of(t: &TextBuf, i: usize, m: Motion) -> (r: usize)
    requires
        t.wf(),
        forward_ok(t@, i as int, m),
    ensures
        r == forward_target(t@, i as int, m),
        r <= byte_len(t@),
{
    let len = t.len();
    match m {
        Motion::Boundary => len,
        Motion::Chars(d) => {
            let k = t.index_of(i);
            let n = t.char_count();
            let to = if d < n - k {
                k + d
            } else {
                n
            };
            proof {
                lemma_offset_mono(t@, to as int, n as int);
                lemma_offset_end(t@);
            }
            t.offset_of(to)
        },
        Motion::Word => {
            let k = t.index_of(i);
            let n = t.char_count();
            proof {
                lemma_offset_mono(t@, k as int, n as int);
                lemma_offset_end(t@);
            }
            if k < n && char_is_whitespace(t.char_at(k)) {
                match t.find_first_from(k, CharClass::Alphanumeric) {
                    None => len,
                    Some(j) => {
                        proof {
                            lemma_first_from_range(t@, k as int, CharClass::Alphanumeric);
                        }
                        let p = j - k;
                        if p >= len - i {
                            len
                        } else {
                            i + p
                        }
                    },
                }
            } else {
                let st = if i < len {
                    i + 1
                } else {
                    len
                };
                let k1 = t.index_of(st);
                match t.find_first_from(k1, CharClass::Whitespace) {
                    None => len,
                    Some(j) => {
                        proof {
                            lemma_first_from_range(t@, k1 as int, CharClass::Whitespace);
                        }
                        let z = j - k1;
                        if z >= len - i {
                            len
                        } else {
                            z + i + 1
                        }
                    },
                }
            }
        },
    }
}

/// The position a move transforms, zero when it transforms none.
pub open spec fn moving_pos(c: Cursor, select: bool) -> int {
    match back_arg(c, select) {
        Some(a) => a as int,
        None => 0,
    }
}

/// A move from cursor `c` over `s` can be made without reading across a
/// character.
pub open spec fn move_ok(s: Seq<char>, c: Cursor, back: bool, select: bool, m: Motion) -> bool {
    back_arg(c, select) is Some ==> if back {
        back_ok(s, moving_pos(c, select), m)
    } else {
        forward_ok(s, moving_pos(c, select), m)
    }
}

/// The cursor after a move from `c` over `s`.
pub open spec fn moved(s: Seq<char>, c: Cursor, back: bool, select: bool, m: Motion) -> Cursor {
    if back {
        back_spec(c, select, back_target(s, moving_pos(c, select), m) as usize)
    } else {
        forward_spec(c, select, forward_target(s, moving_pos(c, select), m) as usize)
    }
}

/// The cursor's positions are character boundaries of `s`, a selection's
/// in order.
pub open spec fn cursor_fits(s: Seq<char>, c: Cursor) -> bool {
    match c {
        Cursor::Singleton(i) => is_boundary(s, i as int),
        Cursor::Selection(a, b, _) => is_boundary(s, a as int) && is_boundary(s, b as int) && a <= b,
    }
}

/// Moves `cursor` over the text `t`, backward or forward.
pub fn move_over(t: &TextBuf, cursor: &mut CursorState, back: bool, select: bool, m: Motion)
    requires
        t.wf(),
        move_ok(t@, old(cursor).state, back, select, m),
    ensures
        final(cursor).state == moved(t@, old(cursor).state, back, select, m),
{
    let ghost c = cursor.state;
    if back {
        let f = |i: usize| -> (r: usize)
            requires
                t.wf(),
                back_ok(t@, i as int, m),
            ensures
                r == back_target(t@, i as int, m),
            { back_target_of(t, i, m) };
        cursor.back(select, f);
        proof {
            if back_arg(c, select) is Some {
                let a = back_arg(c, select)->0;
                let out = choose|out: usize|
                    #[trigger] call_ensures(f, (a,), out) && cursor.state == back_spec(c, select, out);
                assert(out == back_target(t@, a as int, m));
            }
        }
    } else {
        let f = |i: usize| -> (r: usize)
            requires
                t.wf(),
                forward_ok(t@, i as int, m),
            ensures
                r == forward_target(t@, i as int, m),
            { forward_target_of(t, i, m) };
        cursor.forward(select, f);
        proof {
            if back_arg(c, select) is Some {
                let a = back_arg(c, select)->0;
                let out = choose|out: usize|
                    #[trigger] call_ensures(f, (a,), out) && cursor.state == forward_spec(c, select, out);
                assert(out == forward_target(t@, a as int, m));
            }
        }
    }
}

/// Where typed text goes in: at a single position, or over a selection
/// from its start.
pub open spec fn edit_start(c: Cursor) -> int {
    match c {
        Cursor::Singleton(i) => i as int,
        Cursor::Selection(a, _, _) => a as int,
    }
}

/// The end of the text a cursor covers.
pub open spec fn edit_end(c: Cursor) -> int {
    match c {
        Cursor::Singleton(i) => i as int,
        Cursor::Selection(_, b, _) => b as int,
    }
}

/// `s` with the text the cursor covers replaced by `input`.
pub open spec fn inserted_text(s: Seq<char>, c: Cursor, input: Seq<char>) -> Seq<char> {
    s.take(char_index(s, edit_start(c))) + input + s.skip(char_index(s, edit_end(c)))
}

/// `s` after a deletion at cursor `c`: the character before a single
/// position, or the selected text.
pub open spec fn deleted_text(s: Seq<char>, c: Cursor) -> Seq<char> {
    match c {
        Cursor::Singleton(i) => if i == 0 {
            s
        } else {
            s.take(char_index(s, i as int) - 1) + s.skip(char_index(s, i as int))
        },
        Cursor::Selection(a, b, _) => s.take(char_index(s, a as int)) + s.skip(char_index(s, b as int)),
    }
}

/// The cursor after a deletion at cursor `c` over `s`.
pub open spec fn deleted_cursor(s: Seq<char>, c: Cursor) -> Cursor {
    match c {
        Cursor::Singleton(i) => if i == 0 {
            c
        } else {
            Cursor::Singleton(offset(s, char_index(s, i as int) - 1) as usize)
        },
        Cursor::Selection(a, _, _) => Cursor::Singleton(a),
    }
}

/// A text and its prefix agree on the offsets within the prefix.
proof fn lemma_offset_prefix(s: Seq<char>, t: Seq<char>, k: int, j: int)
    requires
        0 <= j <= k <= s.len(),
        k <= t.len(),
        s.take(k) == t.take(k),
    ensures
        offset(s, j) == offset(t, j),
{
    assert(s.take(j) =~= s.take(k).take(j));
    assert(t.take(j) =~= t.take(k).take(j));
}

/// The bytes of a text split at a character add up.
proof fn lemma_byte_len_split(s: Seq<char>, k: int)
    requires
        0 <= k <= s.len(),
    ensures
        byte_len(s) == offset(s, k) + byte_len(s.skip(k)),
{
    assert(s =~= s.take(k) + s.skip(k));
    lemma_byte_len_concat(s.take(k), s.skip(k));
}

/// Replacing characters `a..b` of `s` by `input` gives a text whose
/// prefix before `a` is that of `s`, and whose bytes are bounded.
proof fn lemma_splice(s: Seq<char>, a: int, b: int, input: Seq<char>)
    requires
        0 <= a <= b <= s.len(),
    ensures
        (s.take(a) + input + s.skip(b)).take(a) == s.take(a),
        byte_len(s.take(a) + input + s.skip(b)) <= byte_len(s) + byte_len(input),
        byte_len(s.take(a) + input + s.skip(b)) == offset(s, a) + byte_len(input) + byte_len(s.skip(b)),
{
    let t = s.take(a) + input + s.skip(b);
    assert(t.take(a) =~= s.take(a));
    lemma_byte_len_concat(s.take(a) + input, s.skip(b));
    lemma_byte_len_concat(s.take(a), input);
    lemma_byte_len_split(s, b);
    lemma_offset_mono(s, a, b);
}

/// Types `input` at the cursor: over a selection the selected text is
/// replaced; the cursor then stands at the start of the edit moved forward
/// by as many characters as `input` has bytes.
pub fn insert_text(t: &mut TextBuf, cursor: &mut CursorState, input: &Vec<char>, input_bytes: usize)
    requires
        old(t).wf(),
        cursor_fits(old(t)@, old(cursor).state),
        input_bytes == byte_len(input@),
        byte_len(old(t)@) + input_bytes < usize::MAX,
    ensures
        final(t).wf(),
        final(t)@ == inserted_text(old(t)@, old(cursor).state, input@),
        final(cursor).state == Cursor::Singleton(
            forward_target(final(t)@, edit_start(old(cursor).state), Motion::Chars(input_bytes)) as usize,
        ),
        cursor_fits(final(t)@, final(cursor).state),
{
    let ghost s = t@;
    let ghost c = cursor.state;
    let (start, end) = match cursor.state {
        Cursor::Singleton(i) => (i, i),
        Cursor::Selection(a, b, _) => (a, b),
    };
    let ka = t.index_of(start);
    let kb = t.index_of(end);
    proof {
        if ka > kb {
            lemma_offset_mono(s, kb as int, ka as int);
        }
        lemma_splice(s, ka as int, kb as int, input@);
    }
    t.splice(ka, kb, input);
    cursor.place(start);
    proof {
        let s2 = t@;
        lemma_offset_prefix(s, s2, ka as int, ka as int);
        lemma_char_index(s2, ka as int);
        lemma_forward_lands(s2, start as int, input_bytes);
    }
    move_over(t, cursor, false, false, Motion::Chars(input_bytes));
}

/// A move forward by characters lands on a character boundary, within
/// the text: such moves never split a character.
pub proof fn lemma_forward_lands(s: Seq<char>, i: int, d: usize)
    requires
        is_boundary(s, i),
    ensures
        is_boundary(s, forward_target(s, i, Motion::Chars(d))),
        0 <= forward_target(s, i, Motion::Chars(d)) <= byte_len(s),
{
    let k = char_index(s, i);
    let to = min_int(k + d, s.len() as int);
    lemma_char_index(s, to);
    lemma_offset_mono(s, to, s.len() as int);
    lemma_offset_end(s);
}

/// A move back by characters lands on a character boundary: such moves
/// never split a character.
pub proof fn lemma_back_lands(s: Seq<char>, i: int, d: usize)
    requires
        is_boundary(s, i),
    ensures
        is_boundary(s, back_target(s, i, Motion::Chars(d))),
{
    let k = char_index(s, i);
    let to = k - min_int(d as int, k);
    lemma_char_index(s, to);
}

/// Deletes at the cursor: the character before a single position, or the
/// selected text; reports whether there was anything to delete or text
/// left, which only a cursor at the start of an empty line denies.
pub fn delete_text(t: &mut TextBuf, cursor: &mut CursorState) -> (r: bool)
    requires
        old(t).wf(),
        cursor_fits(old(t)@, old(cursor).state),
    ensures
        final(t).wf(),
        final(t)@ == deleted_text(old(t)@, old(cursor).state),
        final(cursor).state == deleted_cursor(old(t)@, old(cursor).state),
        cursor_fits(final(t)@, final(cursor).state),
        r == !(old(cursor).state == Cursor::Singleton(0) && old(t)@.len() == 0),
{
    let ghost s = t@;
    match cursor.state {
        Cursor::Singleton(curr) => {
            if curr == 0 {
                proof {
                    if s.len() > 0 {
                        lemma_offset_mono(s, 0, s.len() as int);
                        lemma_offset_end(s);
                    }
                }
                return t.char_count() != 0;
            }
            let k = t.index_of(curr);
            proof {
                assert(s.take(0) =~= Seq::<char>::empty());
                assert(k > 0);
                lemma_char_index(s, k - 1);
                lemma_back_lands(s, curr as int, 1);
                lemma_offset_mono(s, (k - 1) as int, k as int);
                assert(s.take(0) =~= Seq::<char>::empty());
            }
            move_over(t, cursor, true, false, Motion::Chars(1));
            let prev = match cursor.state {
                Cursor::Singleton(p) => p,
                Cursor::Selection(a, _, _) => a,
            };
            let kp = t.index_of(prev);
            proof {
                lemma_splice(s, kp as int, k as int, Seq::<char>::empty());
                assert(s.take(kp as int) + Seq::<char>::empty() + s.skip(k as int) =~= s.take(kp as int) + s.skip(k as int));
            }
            let empty: Vec<char> = Vec::new();
            t.splice(kp, k, &empty);
            proof {
                let s2 = t@;
                lemma_offset_prefix(s, s2, kp as int, kp as int);
                lemma_char_index(s2, kp as int);
            }
        },
        Cursor::Selection(a, b, _) => {
            let ka = t.index_of(a);
            let kb = t.index_of(b);
            proof {
                if ka > kb {
                    lemma_offset_mono(s, kb as int, ka as int);
                }
                lemma_splice(s, ka as int, kb as int, Seq::<char>::empty());
                assert(s.take(ka as int) + Seq::<char>::empty() + s.skip(kb as int) =~= s.take(ka as int) + s.skip(kb as int));
            }
            let empty: Vec<char> = Vec::new();
            t.splice(ka, kb, &empty);
            move_over(t, cursor, true, false, Motion::Chars(1));
            proof {
                let s2 = t@;
                lemma_offset_prefix(s, s2, ka as int, ka as int);
                lemma_char_index(s2, ka as int);
            }
        },
    }
    true
}

/// Typing a one-byte character at a single cursor and then deleting gives
/// back the text and the cursor as they were.
pub proof fn law_type_then_delete(s: Seq<char>, i: usize, c: char)
    requires
        is_boundary(s, i as int),
        char_width(c) == 1,
        byte_len(s) < usize::MAX,
    ensures
        ({
            let s2 = inserted_text(s, Cursor::Singleton(i), seq![c]);
            let typed = Cursor::Singleton(forward_target(s2, i as int, Motion::Chars(1)) as usize);
            &&& deleted_text(s2, typed) == s
            &&& deleted_cursor(s2, typed) == Cursor::Singleton(i)
        }),
{
    let k = char_index(s, i as int);
    let s2 = inserted_text(s, Cursor::Singleton(i), seq![c]);
    assert(s2 == s.take(k) + seq![c] + s.skip(k));
    assert(0 <= k <= s.len());
    assert(s2.take(k) =~= s.take(k));
    lemma_offset_prefix(s, s2, k, k);
    lemma_char_index(s2, k);
    assert(s2[k] == c);
    lemma_offset_step(s2, k);
    lemma_char_index(s2, k + 1);
    lemma_offset_mono(s, k, s.len() as int);
    lemma_offset_end(s);
    assert(s2.take(k) + s2.skip(k + 1) =~= s) by {
        assert(s2.skip(k + 1) =~= s.skip(k));
        assert(s.take(k) + s.skip(k) =~= s);
    }
}

/// Every character of `s` is ASCII, one byte wide.
pub open spec fn all_ascii(s: Seq<char>) -> bool {
    forall|k: int| 0 <= k < s.len() ==> (#[trigger] s[k] as u32) < 0x80
}

/// In ASCII text a character's byte offset is its position.
proof fn lemma_ascii_offset(s: Seq<char>, k: int)
    requires
        all_ascii(s),
        0 <= k <= s.len(),
    ensures
        offset(s, k) == k,
    decreases k,
{
    if k == 0 {
        assert(s.take(0) =~= Seq::<char>::empty());
    } else {
        lemma_ascii_offset(s, k - 1);
        lemma_offset_step(s, k - 1);
        assert((s[k - 1] as u32) < 0x80);
    }
}

/// Where a move from the boundary `i` lands is a boundary, and a backward
/// move does not go past `i`, when the move counts characters or goes to
/// an end, or the text is ASCII.
proof fn lemma_target_boundary(s: Seq<char>, i: int, m: Motion)
    requires
        is_boundary(s, i),
        !(m is Word) || all_ascii(s),
    ensures
        is_boundary(s, back_target(s, i, m)),
        back_target(s, i, m) <= i,
        is_boundary(s, forward_target(s, i, m)),
        forward_target(s, i, m) <= byte_len(s),
{
    let k = char_index(s, i);
    assert(0 <= k <= s.len() && offset(s, k) == i);
    lemma_offset_end(s);
    lemma_offset_mono(s, k, s.len() as int);
    assert(offset(s, 0) == 0) by {
        assert(s.take(0) =~= Seq::<char>::empty());
    }
    assert(is_boundary(s, 0));
    assert(is_boundary(s, byte_len(s) as int)) by {
        assert(offset(s, s.len() as int) == byte_len(s));
    }
    match m {
        Motion::Boundary => {},
        Motion::Chars(d) => {
            let kb = k - min_int(d as int, k);
            assert(is_boundary(s, offset(s, kb) as int));
            lemma_offset_mono(s, kb, k);
            let kf = min_int(k + d, s.len() as int);
            assert(is_boundary(s, offset(s, kf) as int));
            lemma_offset_mono(s, kf, s.len() as int);
        },
        Motion::Word => {
            lemma_ascii_offset(s, k);
            lemma_ascii_offset(s, s.len() as int);
            assert forall|x: int| 0 <= x <= s.len() implies is_boundary(s, x) by {
                lemma_ascii_offset(s, x);
            }
            lemma_last_before_range(s, k, CharClass::Alphanumeric);
            lemma_last_before_range(s, k, CharClass::Space);
            let js = last_before(s, k, CharClass::Space);
            if js >= 0 {
                lemma_ascii_offset(s, js);
            }
            lemma_first_from_range(s, k, CharClass::Alphanumeric);
            let st = min_int(i + 1, byte_len(s) as int);
            lemma_ascii_offset(s, st);
            lemma_char_index(s, st);
            lemma_first_from_range(s, st, CharClass::Whitespace);
        },
    }
}

/// Moving the cursor of a line keeps its positions on character
/// boundaries of the line, a selection in order, when the move counts
/// characters or goes to an end, or the line is ASCII: what
/// `PromptApp::move_cursor` leaves of a cursor that fits its line.
pub proof fn law_move_keeps_boundaries(s: Seq<char>, c: Cursor, back: bool, select: bool, m: Motion)
    requires
        cursor_fits(s, c),
        byte_len(s) <= usize::MAX,
        !(m is Word) || all_ascii(s),
    ensures
        cursor_fits(s, moved(s, c, back, select, m)),
{
    let p = moving_pos(c, select);
    if back_arg(c, select) is Some {
        assert(is_boundary(s, p));
        lemma_target_boundary(s, p, m);
        let kp = char_index(s, p);
        lemma_offset_mono(s, kp, s.len() as int);
        lemma_offset_end(s);
    }
}

} // verus!
