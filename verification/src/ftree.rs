use vstd::prelude::*;

verus! {

/// The sum of a sequence of counts.
pub open spec fn seq_sum(s: Seq<usize>) -> nat
    decreases s.len(),
{
    if s.len() == 0 {
        0
    } else {
        seq_sum(s.drop_last()) + s.last() as nat
    }
}

/// The sum of the first `i` counts.
pub open spec fn prefix(s: Seq<usize>, i: int) -> nat {
    seq_sum(s.take(i))
}

pub proof fn lemma_prefix_step(s: Seq<usize>, i: int)
    requires
        0 <= i < s.len(),
    ensures
        prefix(s, i + 1) == prefix(s, i) + s[i],
{
    assert(s.take(i + 1).drop_last() =~= s.take(i));
}

pub proof fn lemma_prefix_full(s: Seq<usize>)
    ensures
        prefix(s, s.len() as int) == seq_sum(s),
{
    assert(s.take(s.len() as int) =~= s);
}

pub proof fn lemma_prefix_mono(s: Seq<usize>, i: int, j: int)
    requires
        0 <= i <= j <= s.len(),
    ensures
        prefix(s, i) <= prefix(s, j),
    decreases j - i,
{
    if i < j {
        lemma_prefix_mono(s, i, j - 1);
        lemma_prefix_step(s, j - 1);
    }
}

/// Changing one count changes every prefix that covers it by the same amount.
pub proof fn lemma_prefix_update(s: Seq<usize>, k: int, v: usize, i: int)
    requires
        0 <= k < s.len(),
        0 <= i <= s.len(),
    ensures
        i <= k ==> prefix(s.update(k, v), i) == prefix(s, i),
        i > k ==> prefix(s.update(k, v), i) + s[k] == prefix(s, i) + v,
    decreases i,
{
    let t = s.update(k, v);
    if i > 0 {
        lemma_prefix_update(s, k, v, i - 1);
        lemma_prefix_step(s, i - 1);
        lemma_prefix_step(t, i - 1);
    } else {
        assert(s.take(0) =~= t.take(0));
    }
}

/// Prefix sums over the counts of a sequence of runs, with the operations the
/// index set needs: adjust one count, sum a prefix, and find the run that
/// holds the item at a given overall position.
pub struct FenwickTree {
    counts: Vec<usize>,
}

impl View for FenwickTree {
    type V = Seq<usize>;

    closed spec fn view(&self) -> Seq<usize> {
        self.counts@
    }
}

impl FenwickTree {
    /// Prefix sums over the given counts.
    pub fn from_counts(counts: Vec<usize>) -> (r: Self)
        ensures
            r@ == counts@,
    {
        FenwickTree { counts }
    }

    /// The number of counts.
    pub fn len(&self) -> (r: usize)
        ensures
            r == self@.len(),
    {
        self.counts.len()
    }

    /// Adds `delta` to the count at `i`.
    pub fn add_at(&mut self, i: usize, delta: usize)
        requires
            i < old(self)@.len(),
            old(self)@[i as int] + delta <= usize::MAX,
        ensures
            final(self)@ == old(self)@.update(i as int, (old(self)@[i as int] + delta) as usize),
    {
        let v = self.counts[i] + delta;
        self.counts.set(i, v);
    }

    /// Subtracts `delta` from the count at `i`.
    pub fn sub_at(&mut self, i: usize, delta: usize)
        requires
            i < old(self)@.len(),
            old(self)@[i as int] >= delta,
        ensures
            final(self)@ == old(self)@.update(i as int, (old(self)@[i as int] - delta) as usize),
    {
        let v = self.counts[i] - delta;
        self.counts.set(i, v);
    }

    /// `init` plus the sum of the first `i` counts.
    pub fn prefix_sum(&self, i: usize, init: usize) -> (r: usize)
        requires
            i <= self@.len(),
            init + seq_sum(self@) <= usize::MAX,
        ensures
            r == init + prefix(self@, i as int),
    {
        let mut acc = init;
        let mut k: usize = 0;
        proof {
            lemma_prefix_full(self@);
            lemma_prefix_mono(self@, i as int, self@.len() as int);
            assert(self@.take(0) =~= Seq::<usize>::empty());
        }
        while k < i
            invariant
                k <= i <= self@.len(),
                acc == init + prefix(self@, k as int),
                init + prefix(self@, i as int) <= usize::MAX,
            decreases i - k,
        {
            proof {
                lemma_prefix_step(self@, k as int);
                lemma_prefix_mono(self@, k as int + 1, i as int);
            }
            acc = acc + self.counts[k];
            k = k + 1;
        }
        acc
    }

    /// The run that holds the item at overall position `idx`: the first run
    /// whose prefix sum including itself exceeds `idx`.
    pub fn index_of(&self, idx: usize) -> (r: usize)
        requires
            idx < seq_sum(self@),
            seq_sum(self@) <= usize::MAX,
        ensures
            r < self@.len(),
            prefix(self@, r as int) <= idx < prefix(self@, r as int + 1),
    {
        let mut acc: usize = 0;
        let mut k: usize = 0;
        proof {
            lemma_prefix_full(self@);
            assert(self@.take(0) =~= Seq::<usize>::empty());
        }
        while k < self.counts.len()
            invariant
                k <= self@.len(),
                acc == prefix(self@, k as int),
                acc <= idx,
                idx < seq_sum(self@),
                seq_sum(self@) <= usize::MAX,
                seq_sum(self@) == prefix(self@, self@.len() as int),
            decreases self@.len() - k,
        {
            proof {
                lemma_prefix_step(self@, k as int);
                lemma_prefix_mono(self@, k as int + 1, self@.len() as int);
            }
            let next = acc + self.counts[k];
            if idx < next {
                return k;
            }
            acc = next;
            k = k + 1;
        }
        k
    }
}

} // verus!
