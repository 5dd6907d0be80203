use vstd::prelude::*;

verus! {

/// Data built up step by step and then finished.
pub trait Inflightable: Sized {
    /// The data while it is being built.
    type Incomplete: Default;

    /// `out` is the finished data made from `inner`.
    spec fn finished(inner: Self::Incomplete, out: Self) -> bool;

    /// `out` shows what `inner` holds.
    spec fn snapshot_of(inner: Self::Incomplete, out: Self) -> bool;

    /// Finishes the incomplete data.
    fn finish(inner: Self::Incomplete) -> (r: Self)
        ensures
            Self::finished(inner, r),
    ;

    /// A snapshot of the incomplete data.
    fn snapshot(inner: &Self::Incomplete) -> (r: Self)
        ensures
            Self::snapshot_of(*inner, r),
    ;
}

/// Data being built, with a flag its writer sets when it is done.
pub struct InflightImpl<I: Inflightable> {
    inflight: I::Incomplete,
    complete: bool,
}

impl<I: Inflightable> InflightImpl<I> {
    /// The data built so far.
    pub closed spec fn data(&self) -> I::Incomplete {
        self.inflight
    }

    /// Whether the writer is done.
    pub closed spec fn done(&self) -> bool {
        self.complete
    }

    /// Nothing built yet, not done.
    pub fn new() -> (r: Self)
        ensures
            !r.done(),
    {
        InflightImpl { inflight: I::Incomplete::default(), complete: false }
    }

    /// Marks the data done.
    pub fn mark_complete(&mut self)
        ensures
            final(self).done(),
            final(self).data() == old(self).data(),
    {
        self.complete = true;
    }

    /// Replaces the data built so far by what `cb` makes of it.
    pub fn write<F: FnOnce(I::Incomplete) -> I::Incomplete>(&mut self, cb: F)
        requires
            call_requires(cb, (old(self).data(),)),
        ensures
            call_ensures(cb, (old(self).data(),), final(self).data()),
            final(self).done() == old(self).done(),
    {
        let mut data = I::Incomplete::default();
        std::mem::swap(&mut data, &mut self.inflight);
        self.inflight = cb(data);
    }

    /// What `cb` reads from a snapshot of the data built so far.
    pub fn read<F: FnOnce(&I) -> T, T>(&self, cb: F) -> (r: T)
        requires
            forall|snap: I| #[trigger] I::snapshot_of(self.data(), snap) ==> call_requires(cb, (&snap,)),
        ensures
            exists|snap: I| #[trigger] I::snapshot_of(self.data(), snap) && call_ensures(cb, (&snap,), r),
    {
        let snap = I::snapshot(&self.inflight);
        assert(I::snapshot_of(self.data(), snap));
        let r = cb(&snap);
        assert(call_ensures(cb, (&snap,), r));
        r
    }
}

/// Data still being built, or finished.
pub enum Inflight<I: Inflightable> {
    Incomplete(InflightImpl<I>),
    Complete(I),
}

impl<I: Inflightable> Inflight<I> {
    /// Finishes data still being built; with a single owner this always
    /// succeeds.
    pub fn try_finalize(&mut self) -> (r: bool)
        ensures
            r,
            *old(self) matches Inflight::Incomplete(inner) ==> (*final(self) matches Inflight::Complete(
                done,
            ) && I::finished(inner.data(), done)),
            *old(self) is Complete ==> *final(self) == *old(self),
    {
        if let Inflight::Incomplete(_) = self {
            let mut taken = Inflight::Complete(I::finish(I::Incomplete::default()));
            std::mem::swap(&mut taken, self);
            match taken {
                Inflight::Incomplete(inner) => {
                    *self = Inflight::Complete(I::finish(inner.inflight));
                },
                Inflight::Complete(done) => {
                    *self = Inflight::Complete(done);
                },
            }
        }
        true
    }

    /// Whether the data is finished, or its writer is done.
    pub fn is_complete(&self) -> (r: bool)
        ensures
            r == match self {
                Inflight::Incomplete(inner) => inner.done(),
                Inflight::Complete(_) => true,
            },
    {
        match self {
            Inflight::Incomplete(inner) => inner.complete,
            Inflight::Complete(_) => true,
        }
    }

    /// The finished data.
    pub fn unwrap(self) -> (r: I)
        ensures
            self matches Inflight::Incomplete(inner) ==> I::finished(inner.data(), r),
            self matches Inflight::Complete(done) ==> r == done,
    {
        match self {
            Inflight::Incomplete(inner) => I::finish(inner.inflight),
            Inflight::Complete(done) => done,
        }
    }
}

/// Whether `x` is finished, or its writer is done: what `is_complete`
/// answers.
pub open spec fn completed<I: Inflightable>(x: Inflight<I>) -> bool {
    match x {
        Inflight::Incomplete(inner) => inner.done(),
        Inflight::Complete(_) => true,
    }
}

/// `y` is what one of the operations leaves of `x`: a `write` or a
/// `mark_complete` on the data being built, or a `try_finalize`.
pub open spec fn one_step<I: Inflightable>(x: Inflight<I>, y: Inflight<I>) -> bool {
    ||| (x matches Inflight::Incomplete(a) && (y matches Inflight::Incomplete(b) && b.done() == a.done()))
    ||| (x is Incomplete && (y matches Inflight::Incomplete(b) && b.done()))
    ||| (x matches Inflight::Incomplete(a) && (y matches Inflight::Complete(done) && I::finished(a.data(), done)))
    ||| (x is Complete && y == x)
}

/// Once data is complete it stays complete, whatever operations follow.
pub proof fn law_complete_stays<I: Inflightable>(steps: Seq<Inflight<I>>)
    requires
        steps.len() > 0,
        completed(steps[0]),
        forall|k: int| 0 <= k < steps.len() - 1 ==> one_step(#[trigger] steps[k], steps[k + 1]),
    ensures
        forall|k: int| 0 <= k < steps.len() ==> completed(#[trigger] steps[k]),
    decreases steps.len(),
{
    if steps.len() > 1 {
        let front = steps.drop_last();
        assert forall|k: int| 0 <= k < front.len() - 1 implies one_step(#[trigger] front[k], front[k + 1]) by {
            assert(front[k] == steps[k] && front[k + 1] == steps[k + 1]);
        }
        law_complete_stays(front);
        assert forall|k: int| 0 <= k < steps.len() implies completed(#[trigger] steps[k]) by {
            if k < steps.len() - 1 {
                assert(front[k] == steps[k]);
            } else {
                assert(front[k - 1] == steps[k - 1]);
                assert(one_step(steps[k - 1], steps[k]));
            }
        }
    }
}

/// The lines of a composite of filters, ascending.
pub struct Composite {
    lines: Vec<usize>,
}

impl Composite {
    /// The lines, ascending.
    pub closed spec fn lines(&self) -> Seq<usize> {
        self.lines@
    }

    /// No lines.
    pub fn empty() -> (r: Self)
        ensures
            r.lines() == Seq::<usize>::empty(),
    {
        Composite { lines: Vec::new() }
    }

    /// The number of lines.
    pub fn len(&self) -> (r: usize)
        ensures
            r == self.lines().len(),
    {
        self.lines.len()
    }

    /// The line at `index`.
    pub fn get(&self, index: usize) -> (r: Option<usize>)
        ensures
            r == (if index < self.lines().len() {
                Some(self.lines()[index as int])
            } else {
                None::<usize>
            }),
    {
        if index < self.lines.len() {
            Some(self.lines[index])
        } else {
            None
        }
    }

    /// A copy of the lines.
    fn copy(&self) -> (r: Self)
        ensures
            r.lines() == self.lines(),
    {
        let mut out: Vec<usize> = Vec::new();
        let mut i: usize = 0;
        while i < self.lines.len()
            invariant
                i <= self.lines@.len(),
                out@ == self.lines@.take(i as int),
            decreases self.lines@.len() - i,
        {
            out.push(self.lines[i]);
            i = i + 1;
            proof {
                assert(out@ =~= self.lines@.take(i as int));
            }
        }
        proof {
            assert(self.lines@.take(self.lines@.len() as int) =~= self.lines@);
        }
        Composite { lines: out }
    }
}

/// The lines of a composite still being built.
pub struct IncompleteComposite {
    inner: Composite,
}

impl IncompleteComposite {
    /// The lines so far, ascending.
    pub closed spec fn lines(&self) -> Seq<usize> {
        self.inner.lines()
    }

    /// No lines yet.
    pub fn new() -> (r: Self)
        ensures
            r.lines() == Seq::<usize>::empty(),
    {
        IncompleteComposite { inner: Composite::empty() }
    }

    /// Adds a line no smaller than the last; a repeat of the last is
    /// dropped.
    pub fn add_line(&mut self, line_number: usize)
        requires
            old(self).lines().len() > 0 ==> old(self).lines().last() <= line_number,
        ensures
            old(self).lines().len() > 0 && old(self).lines().last() == line_number ==> final(self).lines()
                == old(self).lines(),
            !(old(self).lines().len() > 0 && old(self).lines().last() == line_number) ==> final(self).lines()
                == old(self).lines().push(line_number),
    {
        let n = self.inner.lines.len();
        if n > 0 && self.inner.lines[n - 1] == line_number {
            return;
        }
        self.inner.lines.push(line_number);
    }

    /// The finished lines.
    pub fn finish(self) -> (r: Composite)
        ensures
            r.lines() == self.lines(),
    {
        self.inner
    }
}

impl Default for IncompleteComposite {
    fn default() -> (r: Self)
        ensures
            r.lines() == Seq::<usize>::empty(),
    {
        IncompleteComposite::new()
    }
}

impl Inflightable for Composite {
    type Incomplete = IncompleteComposite;

    open spec fn finished(inner: IncompleteComposite, out: Composite) -> bool {
        out.lines() == inner.lines()
    }

    open spec fn snapshot_of(inner: IncompleteComposite, out: Composite) -> bool {
        out.lines() == inner.lines()
    }

    fn finish(inner: IncompleteComposite) -> (r: Composite) {
        inner.finish()
    }

    fn snapshot(inner: &IncompleteComposite) -> (r: Composite) {
        inner.inner.copy()
    }
}

impl Inflight<Composite> {
    /// A finished composite with no lines.
    pub fn empty() -> (r: Self)
        ensures
            r matches Inflight::Complete(c) && c.lines() == Seq::<usize>::empty(),
    {
        Inflight::Complete(Composite::empty())
    }

    /// The lines of the composite, or of a snapshot of it while it is built.
    pub open spec fn current_lines(&self) -> Seq<usize> {
        match self {
            Inflight::Incomplete(inner) => inner.data().lines(),
            Inflight::Complete(c) => c.lines(),
        }
    }

    /// The number of lines.
    pub fn len(&self) -> (r: usize)
        ensures
            r == self.current_lines().len(),
    {
        match self {
            Inflight::Incomplete(inner) => {
                let snap = Composite::snapshot(&inner.inflight);
                snap.len()
            },
            Inflight::Complete(c) => c.len(),
        }
    }

    /// The line at `index`.
    pub fn get(&self, index: usize) -> (r: Option<usize>)
        ensures
            r == (if index < self.current_lines().len() {
                Some(self.current_lines()[index as int])
            } else {
                None::<usize>
            }),
    {
        match self {
            Inflight::Incomplete(inner) => {
                let snap = Composite::snapshot(&inner.inflight);
                snap.get(index)
            },
            Inflight::Complete(c) => c.get(index),
        }
    }
}

} // verus!
