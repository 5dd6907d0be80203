use vstd::prelude::*;

verus! {

/// `r` holds a line with the text `text`, marked `hist`.
pub open spec fn entry_is(r: Option<(&str, bool)>, text: Seq<char>, hist: bool) -> bool {
    match r {
        Some((s, b)) => s@ == text && b == hist,
        None => false,
    }
}

/// Submitted lines, with a position that can walk back through them and
/// forward to the line being edited.
pub struct History {
    buf: Vec<String>,
    curr: String,
    index: usize,
}

impl History {
    /// The submitted lines, oldest first.
    pub closed spec fn lines(&self) -> Seq<String> {
        self.buf@
    }

    /// The line being edited.
    pub closed spec fn current(&self) -> String {
        self.curr
    }

    /// The position: a submitted line below the number of lines, the line
    /// being edited at or past it.
    pub closed spec fn position(&self) -> nat {
        self.index as nat
    }

    /// No lines, an empty line being edited, at position zero.
    pub fn new() -> (r: Self)
        ensures
            r.lines().len() == 0,
            r.current()@ == Seq::<char>::empty(),
            r.position() == 0,
    {
        History { buf: Vec::new(), curr: String::new(), index: 0 }
    }

    /// Whether the position is on a submitted line.
    pub fn is_using_history(&self) -> (r: bool)
        ensures
            r == (self.position() < self.lines().len()),
    {
        self.index < self.buf.len()
    }

    /// Adds a submitted line and moves past the last one.
    pub fn push(&mut self, line: String)
        ensures
            final(self).lines() == old(self).lines().push(line),
            final(self).position() == final(self).lines().len(),
            final(self).current() == old(self).current(),
    {
        self.buf.push(line);
        self.index = self.buf.len();
    }

    /// Replaces the line being edited.
    pub fn set_curr(&mut self, line: String)
        ensures
            final(self).current() == line,
            final(self).lines() == old(self).lines(),
            final(self).position() == old(self).position(),
    {
        self.curr = line;
    }

    /// With no submitted line, `None`. Otherwise the position is brought
    /// down to the number of lines, and the line there is returned with
    /// `true` when it is a submitted one, or the line being edited with
    /// `false`.
    fn access(&mut self) -> (r: Option<(&str, bool)>)
        ensures
            final(self).lines() == old(self).lines(),
            final(self).current() == old(self).current(),
            old(self).lines().len() == 0 ==> r is None && final(self).position() == old(
                self).position(),
            old(self).lines().len() > 0 ==> {
                let p = if old(self).position() < old(self).lines().len() {
                    old(self).position()
                } else {
                    old(self).lines().len()
                };
                &&& final(self).position() == p
                &&& r is Some
                &&& p < old(self).lines().len() ==> entry_is(r, old(self).lines()[p as int]@
                   , true)
                &&& p == old(self).lines().len() ==> entry_is(r, old(self).current()@, false)
            },
    {
        if self.buf.len() == 0 {
            return None;
        }
        self.index = if self.index < self.buf.len() {
            self.index
        } else {
            self.buf.len()
        };
        if self.index == self.buf.len() {
            Some((self.curr.as_str(), false))
        } else {
            Some((self.buf[self.index].as_str(), true))
        }
    }

    /// Steps the position back by one (not below zero) and returns the line
    /// there, as `access` does.
    pub fn backward(&mut self) -> (r: Option<(&str, bool)>)
        ensures
            final(self).lines() == old(self).lines(),
            final(self).current() == old(self).current(),
            old(self).lines().len() == 0 ==> r is None,
            old(self).lines().len() > 0 ==> {
                let q = if old(self).position() > 0 { old(self).position() - 1 } else { 0 };
                let p = if q < old(self).lines().len() { q } else { old(self).lines().len() as int };
                &&& final(self).position() == p
                &&& r is Some
                &&& p < old(self).lines().len() ==> entry_is(r, old(self).lines()[p]@, true)
                &&& p == old(self).lines().len() ==> entry_is(r, old(self).current()@, false)
            },
    {
        self.index = self.index.saturating_sub(1);
        self.access()
    }

    /// Steps the position forward by one (not past the line being edited)
    /// and returns the line there, as `access` does.
    pub fn forward(&mut self) -> (r: Option<(&str, bool)>)
        ensures
            final(self).lines() == old(self).lines(),
            final(self).current() == old(self).current(),
            old(self).lines().len() == 0 ==> r is None,
            old(self).lines().len() > 0 ==> {
                let q = old(self).position() + 1int;
                let p = if q < old(self).lines().len() { q } else { old(self).lines().len() as int };
                &&& final(self).position() == p
                &&& r is Some
                &&& p < old(self).lines().len() ==> entry_is(r, old(self).lines()[p]@, true)
                &&& p == old(self).lines().len() ==> entry_is(r, old(self).current()@, false)
            },
    {
        let n = self.buf.len();
        self.index = self.index.saturating_add(1);
        proof {
            if old(self).index < usize::MAX {
                assert(self.index == old(self).index + 1);
            } else {
                assert(self.index == usize::MAX);
                assert(self.buf@.len() == n);
            }
        }
        self.access()
    }
}

/// After a line is added, the first step back shows it, as a submitted
/// line.
pub proof fn law_push_then_back(lines: Seq<String>, line: String)
    ensures
        ({
            let after = lines.push(line);
            let q = after.len() - 1;
            &&& 0 <= q < after.len()
            &&& after[q] == line
        }),
{
}

} // verus!
