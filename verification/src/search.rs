use vstd::prelude::*;

use crate::editor::string_of;
use crate::line_index::{nondecreasing, LineIndex};
use crate::lineset::LineSet;
use crate::node::sorted_strict;

verus! {

#[verifier::external_type_specification]
#[verifier::external_body]
pub struct ExRegex(regex::bytes::Regex);

/// Whether the regular expression `pattern` compiles.
pub uninterp spec fn regex_compiles(pattern: Seq<char>) -> bool;

/// The first match of the regular expression `pattern` in `hay` that a
/// search from byte `start` finds, as the range of bytes it covers.
pub uninterp spec fn regex_find_at(pattern: Seq<char>, hay: Seq<u8>, start: usize) -> Option<(usize, usize)>;

/// The pattern that matches `text` literally.
pub uninterp spec fn regex_escaped(text: Seq<char>) -> Seq<char>;

/// Calls `regex::bytes::Regex::new`, which compiles `pattern`, and drops
/// the error it gives for a pattern that does not compile. Whether it
/// compiles is named; nothing more is stated of the compiled expression
/// than what the search wrapper below states of its matches.
#[verifier::external_body]
fn regex_new(pattern: &str) -> (r: Option<regex::bytes::Regex>)
    ensures
        r is Some <==> regex_compiles(pattern@),
{
    match regex::bytes::Regex::new(pattern) {
        Ok(re) => Some(re),
        Err(_) => None,
    }
}

/// Calls `regex::escape`, which escapes the meta characters of `text`.
#[verifier::external_body]
fn regex_escape(text: &str) -> (r: String)
    ensures
        r@ == regex_escaped(text@),
{
    regex::escape(text)
}

/// A compiled regular expression with the text it was compiled from.
pub struct Pattern {
    re: regex::bytes::Regex,
    text: String,
}

/// Calls `Regex::find_at` on the expression `p` compiled: the first match
/// in `hay` of a search from `start`, which the crate looks for within
/// `start..hay.len()`, so that it starts at or after `start` and ends by the
/// end of `hay`.
#[verifier::external_body]
fn pattern_find_at(p: &Pattern, hay: &[u8], start: usize) -> (r: Option<(usize, usize)>)
    requires
        start <= hay@.len(),
    ensures
        r == regex_find_at(p.text(), hay@, start),
        r matches Some(m) ==> start <= m.0 <= m.1 <= hay@.len(),
{
    match p.re.find_at(hay, start) {
        Some(m) => Some((m.start(), m.end())),
        None => None,
    }
}

/// Why a pattern could not be used.
#[derive(Clone, Copy, PartialEq, Eq, Debug)]
pub enum PatternError {
    /// The regular expression does not compile.
    Invalid,
}

impl Pattern {
    /// The text the expression was compiled from.
    pub closed spec fn text(&self) -> Seq<char> {
        self.text@
    }

    /// The expression `pattern`, compiled.
    pub fn new(pattern: &str) -> (r: Result<Pattern, PatternError>)
        ensures
            r is Ok <==> regex_compiles(pattern@),
            r matches Ok(p) ==> p.text() == pattern@,
    {
        match regex_new(pattern) {
            Some(re) => {
                let chars = crate::editor::chars_of(pattern);
                let text = string_of(&chars);
                Ok(Pattern { re, text })
            },
            None => Err(PatternError::Invalid),
        }
    }

    /// The expression that matches `pattern` itself when `literal` is set,
    /// and `pattern` as a regular expression otherwise.
    pub fn build(pattern: &str, literal: bool) -> (r: Result<Pattern, PatternError>)
        ensures
            literal ==> (r is Ok <==> regex_compiles(regex_escaped(pattern@))),
            literal ==> (r matches Ok(p) ==> p.text() == regex_escaped(pattern@)),
            !literal ==> (r is Ok <==> regex_compiles(pattern@)),
            !literal ==> (r matches Ok(p) ==> p.text() == pattern@),
    {
        if literal {
            let escaped = regex_escape(pattern);
            Pattern::new(escaped.as_str())
        } else {
            Pattern::new(pattern)
        }
    }

    /// The text the expression was compiled from.
    pub fn as_str(&self) -> (r: &str)
        ensures
            r@ == self.text(),
    {
        self.text.as_str()
    }
}

/// The line whose data holds byte `s`, by the line starts `off`.
pub open spec fn holds_byte(off: Seq<u64>, k: int, s: int) -> bool {
    0 <= k && k + 1 < off.len() && off[k] <= s < off[k + 1]
}

/// The lines a search of `data` for `pattern` from byte `pos` finds: the
/// line of the first match, then the lines a search from the start of the
/// next line finds. `None` when a match lies on no line.
pub open spec fn search_spec(pattern: Seq<char>, data: Seq<u8>, off: Seq<u64>, pos: int) -> Option<Seq<usize>>
    decreases data.len() - pos,
{
    if pos < 0 || pos > data.len() {
        None
    } else {
        match regex_find_at(pattern, data, pos as usize) {
            None => Some(Seq::empty()),
            Some(m) => if exists|k: int| #[trigger] holds_byte(off, k, m.0 as int) {
                let k = choose|k: int| #[trigger] holds_byte(off, k, m.0 as int);
                let next = off[k + 1] as int;
                if pos < next <= data.len() {
                    match search_spec(pattern, data, off, next) {
                        Some(rest) => Some(seq![k as usize] + rest),
                        None => None,
                    }
                } else {
                    None
                }
            } else {
                None
            },
        }
    }
}

/// At most one line holds a byte.
proof fn lemma_holds_unique(off: Seq<u64>, s: int, a: int, b: int)
    requires
        nondecreasing(off),
        holds_byte(off, a, s),
        holds_byte(off, b, s),
    ensures
        a == b,
{
    if a < b {
        assert(off[a + 1] <= off[b]);
    } else if b < a {
        assert(off[b + 1] <= off[a]);
    }
}

/// The lines of `data` that a search for `pattern` finds, ascending: from
/// the start, the line of each match, the search going on from the start of
/// the next line. `None` when a match lies on no line of `index`, which a
/// match that starts at the very end of the data does.
pub fn search_lines(index: &LineIndex, data: &[u8], pattern: &Pattern) -> (r: Option<Vec<usize>>)
    requires
        index.wf(),
    ensures
        r matches Some(v) ==> Some(v@) == search_spec(pattern.text(), data@, index@, 0),
        r matches Some(v) ==> sorted_strict(v@),
        r is None ==> search_spec(pattern.text(), data@, index@, 0) is None,
{
    let ghost off = index@;
    let ghost pat = pattern.text();
    let mut out: Vec<usize> = Vec::new();
    let mut pos: usize = 0;
    let n = data.len();
    proof {
        index.lemma_wf_nondecreasing();
    }
    loop
        invariant
            pos <= n == data@.len(),
            index.wf(),
            off == index@,
            nondecreasing(off),
            pat == pattern.text(),
            search_spec(pat, data@, off, 0) == match search_spec(pat, data@, off, pos as int) {
                Some(rest) => Some(out@ + rest),
                None => None::<Seq<usize>>,
            },
            sorted_strict(out@),
            out@.len() > 0 ==> out@.last() + 1 < off.len() && off[out@.last() + 1] <= pos,
        decreases n - pos,
    {
        let found = pattern_find_at(pattern, data, pos);
        match found {
            None => {
                proof {
                    assert(search_spec(pat, data@, off, pos as int) == Some(Seq::<usize>::empty()));
                    assert(out@ + Seq::<usize>::empty() =~= out@);
                }
                return Some(out);
            },
            Some(m) => {
                let s = m.0;
                match index.line_of_data(s as u64) {
                    None => {
                        proof {
                            if exists|k: int| #[trigger] holds_byte(off, k, s as int) {
                                let k = choose|k: int| #[trigger] holds_byte(off, k, s as int);
                                assert(!(off[k] <= (s as u64) < off[k + 1]));
                            }
                        }
                        return None;
                    },
                    Some(k) => {
                        proof {
                            index.lemma_len_fits();
                        }
                        let next = index.data_of_line(k + 1).unwrap();
                        proof {
                            assert(holds_byte(off, k as int, s as int));
                            let c = choose|c: int| #[trigger] holds_byte(off, c, s as int);
                            lemma_holds_unique(off, s as int, c, k as int);
                        }
                        if next <= pos as u64 || next > n as u64 {
                            return None;
                        }
                        proof {
                            let rest = search_spec(pat, data@, off, next as int);
                            if rest is Some {
                                assert(out@.push(k) + rest->0 =~= out@ + (seq![k] + rest->0));
                            }
                            if out@.len() > 0 {
                                let last = out@.last() as int;
                                if k as int <= last {
                                    assert(off[k + 1] <= off[last + 1]);
                                }
                            }
                            assert forall|i: int, j: int| 0 <= i < j < out@.push(k).len() implies out@.push(k)[i] < out@.push(k)[j] by {
                                if j == out@.len() {
                                    assert(out@[i] <= out@.last());
                                }
                            }
                        }
                        out.push(k);
                        pos = next as usize;
                    },
                }
            },
        }
    }
}

impl LineSet {
    /// The lines of `data` that a search for `pattern` finds, as a complete
    /// subset; `None` when a match lies on no line of `index`.
    pub fn search(index: &LineIndex, data: &[u8], pattern: &Pattern) -> (r: Option<LineSet>)
        requires
            index.wf(),
        ensures
            r matches Some(set) ==> set.wf(),
            r matches Some(set) ==> set is Subset && set.completed() && Some(set.lines()) == search_spec(
                pattern.text(),
                data@,
                index@,
                0,
            ),
            r is None ==> search_spec(pattern.text(), data@, index@, 0) is None,
    {
        match search_lines(index, data, pattern) {
            Some(lines) => Some(LineSet::Subset { buf: lines, completed: true, min_len: 0 }),
            None => None,
        }
    }
}

} // verus!
