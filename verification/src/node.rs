use vstd::prelude::*;

verus! {

/// The number of items a node of the index set holds before it is split.
pub const DEFAULT_INNER_SIZE: usize = 1024;

/// How many parts a full node is split into.
pub const CUTOFF_RATIO: usize = 2;

/// The position at which a full node is split.
pub const DEFAULT_CUTOFF: usize = DEFAULT_INNER_SIZE / CUTOFF_RATIO;

/// `2^n`.
pub open spec fn exp2(n: nat) -> nat
    decreases n,
{
    if n == 0 {
        1
    } else {
        2 * exp2((n - 1) as nat)
    }
}

/// The base-2 logarithm of `n`, rounded down.
pub open spec fn log2_floor(n: nat) -> nat
    decreases n,
{
    if n <= 1 {
        0
    } else {
        1 + log2_floor(n / 2)
    }
}

/// Every item of `s` is smaller than the item after it.
pub open spec fn sorted_strict(s: Seq<usize>) -> bool {
    forall|i: int, j: int| 0 <= i < j < s.len() ==> s[i] < s[j]
}

/// The number of items of a sorted sequence that are smaller than `v`,
/// which is the position at which `v` is found or would be inserted.
pub open spec fn count_less(s: Seq<usize>, v: usize) -> nat
    decreases s.len(),
{
    if s.len() == 0 {
        0
    } else if s.last() < v {
        count_less(s.drop_last(), v) + 1
    } else {
        count_less(s.drop_last(), v)
    }
}

/// The larger of an optional maximum and a new value, `None` counting as
/// smaller than any value.
pub open spec fn max_with(max: Option<usize>, v: usize) -> Option<usize> {
    match max {
        Some(m) => if v > m { Some(v) } else { Some(m) },
        None => Some(v),
    }
}

/// Whether a node's recorded maximum is below `value`; a node that records
/// no maximum counts as not below.
pub open spec fn max_below(n: NodeView, value: usize) -> bool {
    n.1 is Some && n.1->0 < value
}

/// `r` is a position in `nodes` between a node whose maximum is below
/// `value` (or the start) and a node whose maximum is not (or the end).
pub open spec fn partition_boundary(nodes: Seq<NodeView>, r: usize, value: usize) -> bool {
    &&& r <= nodes.len()
    &&& (r == 0 || max_below(nodes[r - 1], value))
    &&& (r == nodes.len() || !max_below(nodes[r as int], value))
}

/// The abstract state of a node: its items, its recorded maximum and the
/// number of halving steps its search may take.
pub type NodeView = (Seq<usize>, Option<usize>, usize);

/// A sorted run of items of the index set.
///
/// The recorded maximum is raised on insertion and never lowered by a
/// deletion, so it may exceed every item still held.
#[derive(Clone, Debug)]
pub struct Node {
    inner: Vec<usize>,
    max: Option<usize>,
    iterations: usize,
}

impl View for Node {
    type V = NodeView;

    closed spec fn view(&self) -> NodeView {
        (self.inner@, self.max, self.iterations)
    }
}

/// A node whose items are sorted, whose recorded maximum bounds every item,
/// and which records no maximum only when it is empty.
pub open spec fn node_wf(n: NodeView) -> bool {
    &&& sorted_strict(n.0)
    &&& (n.1 is None ==> n.0.len() == 0)
    &&& (forall|i: int| 0 <= i < n.0.len() ==> n.0[i] <= n.1->0)
}

/// A node whose search always runs to completion.
pub open spec fn node_search_complete(n: NodeView) -> bool {
    n.0.len() < exp2(n.2 as nat)
}

pub proof fn lemma_exp2_pos(n: nat)
    ensures
        exp2(n) >= 1,
    decreases n,
{
    if n > 0 {
        lemma_exp2_pos((n - 1) as nat);
    }
}

pub proof fn lemma_exp2_log2(n: nat)
    requires
        n >= 1,
    ensures
        exp2(log2_floor(n)) <= n < exp2(log2_floor(n) + 1),
    decreases n,
{
    if n > 1 {
        lemma_exp2_log2(n / 2);
    }
}

pub proof fn lemma_count_less_sorted(s: Seq<usize>, v: usize)
    requires
        sorted_strict(s),
    ensures
        count_less(s, v) <= s.len(),
        forall|i: int| 0 <= i < count_less(s, v) ==> s[i] < v,
        forall|i: int| count_less(s, v) <= i < s.len() ==> s[i] >= v,
    decreases s.len(),
{
    if s.len() > 0 {
        let t = s.drop_last();
        assert(sorted_strict(t));
        lemma_count_less_sorted(t, v);
        if s.last() < v {
            assert forall|i: int| 0 <= i < count_less(s, v) implies s[i] < v by {
                if i < t.len() {
                    assert(s[i] == t[i]);
                }
            }
        } else {
            if t.len() > 0 && count_less(t, v) < t.len() {
                assert(t[t.len() - 1] >= v);
            }
            assert forall|i: int| count_less(s, v) <= i < s.len() implies s[i] >= v by {
                if i < t.len() {
                    assert(s[i] == t[i]);
                }
            }
            assert forall|i: int| 0 <= i < count_less(s, v) implies s[i] < v by {
                assert(s[i] == t[i]);
            }
        }
    }
}

/// The position of the boundary in a sorted sequence is unique.
pub proof fn lemma_count_less_unique(s: Seq<usize>, v: usize, k: int)
    requires
        sorted_strict(s),
        0 <= k <= s.len(),
        forall|i: int| 0 <= i < k ==> s[i] < v,
        forall|i: int| k <= i < s.len() ==> s[i] >= v,
    ensures
        count_less(s, v) == k,
{
    lemma_count_less_sorted(s, v);
    let c = count_less(s, v) as int;
    if c < k {
        assert(s[c] < v);
    } else if c > k {
        assert(s[k] >= v);
    }
}

/// Inserting a value at its sorted position keeps a sequence sorted.
pub proof fn lemma_sorted_insert(s: Seq<usize>, v: usize, k: int)
    requires
        sorted_strict(s),
        0 <= k <= s.len(),
        forall|i: int| 0 <= i < k ==> s[i] < v,
        forall|i: int| k <= i < s.len() ==> s[i] > v,
    ensures
        sorted_strict(s.insert(k, v)),
        s.insert(k, v).len() == s.len() + 1,
{
    let t = s.insert(k, v);
    assert forall|i: int, j: int| 0 <= i < j < t.len() implies t[i] < t[j] by {
        if j < k {
        } else if j == k {
        } else if i < k {
        } else if i == k {
            assert(t[j] == s[j - 1]);
        } else {
            assert(t[i] == s[i - 1]);
            assert(t[j] == s[j - 1]);
        }
    }
}

/// Removing an item keeps a sequence sorted.
pub proof fn lemma_sorted_remove(s: Seq<usize>, k: int)
    requires
        sorted_strict(s),
        0 <= k < s.len(),
    ensures
        sorted_strict(s.remove(k)),
{
    let t = s.remove(k);
    assert forall|i: int, j: int| 0 <= i < j < t.len() implies t[i] < t[j] by {
        if j < k {
        } else if i < k {
            assert(t[j] == s[j + 1]);
        } else {
            assert(t[i] == s[i + 1]);
            assert(t[j] == s[j + 1]);
        }
    }
}

/// A contiguous part of a sorted sequence is sorted.
pub proof fn lemma_sorted_subrange(s: Seq<usize>, a: int, b: int)
    requires
        sorted_strict(s),
        0 <= a <= b <= s.len(),
    ensures
        sorted_strict(s.subrange(a, b)),
{
    let t = s.subrange(a, b);
    assert forall|i: int, j: int| 0 <= i < j < t.len() implies t[i] < t[j] by {
        assert(t[i] == s[a + i]);
        assert(t[j] == s[a + j]);
    }
}

/// The largest `k` with `2^k <= n`, for `n > 0`.
pub fn ilog2(n: usize) -> (r: usize)
    requires
        n > 0,
    ensures
        r == log2_floor(n as nat),
{
    let mut k: usize = 0;
    let mut m: usize = n;
    proof {
        lemma_log2_floor_bound(n as nat);
    }
    while m > 1
        invariant
            m >= 1,
            k + log2_floor(m as nat) == log2_floor(n as nat),
            log2_floor(n as nat) <= n,
        decreases m,
    {
        assert(log2_floor(m as nat) == 1 + log2_floor((m / 2) as nat));
        k = k + 1;
        m = m / 2;
    }
    k
}

proof fn lemma_log2_floor_bound(n: nat)
    ensures
        log2_floor(n) <= n,
    decreases n,
{
    if n > 1 {
        lemma_log2_floor_bound(n / 2);
    }
}

/// Searches a sorted haystack for `needle` within at most `iterations`
/// halving steps.
///
/// `Ok` gives a position that holds `needle`. `Err` gives a position before
/// which every item is smaller than `needle`; when the haystack is shorter
/// than `2^iterations`, every item from that position on is larger.
fn search(haystack: &Vec<usize>, needle: usize, iterations: usize) -> (r: Result<usize, usize>)
    requires
        sorted_strict(haystack@),
    ensures
        match r {
            Ok(i) => i < haystack@.len() && haystack@[i as int] == needle,
            Err(i) => {
                &&& i <= haystack@.len()
                &&& forall|k: int| 0 <= k < i ==> haystack@[k] < needle
                &&& haystack@.len() < exp2(iterations as nat) ==> forall|k: int|
                    i <= k < haystack@.len() ==> haystack@[k] > needle
            },
        },
{
    let mut left: usize = 0;
    let mut right: usize = haystack.len();
    let mut t: usize = 0;
    proof {
        lemma_exp2_pos(iterations as nat);
    }
    while t < iterations && left < right
        invariant
            left <= right <= haystack@.len(),
            t <= iterations,
            sorted_strict(haystack@),
            forall|k: int| 0 <= k < left ==> haystack@[k] < needle,
            forall|k: int| right <= k < haystack@.len() ==> haystack@[k] > needle,
            haystack@.len() < exp2(iterations as nat) ==> right - left < exp2(
                (iterations - t) as nat,
            ),
        decreases iterations - t,
    {
        let mid = left + (right - left) / 2;
        let mid_value = haystack[mid];
        proof {
            if haystack@.len() < exp2(iterations as nat) {
                let r = (iterations - t) as nat;
                assert(r >= 1);
                assert(exp2(r) == 2 * exp2((r - 1) as nat));
                assert((right - left) / 2 < exp2((r - 1) as nat));
                assert(right - (mid + 1) < exp2((r - 1) as nat));
                assert(mid - left < exp2((r - 1) as nat));
            }
        }
        if mid_value < needle {
            left = mid + 1;
        } else if mid_value > needle {
            right = mid;
        } else {
            return Ok(mid);
        }
        t = t + 1;
    }
    proof {
        if haystack@.len() < exp2(iterations as nat) && t == iterations {
            assert(exp2(0) == 1);
        }
    }
    Err(left)
}

impl Node {
    /// A node with room for `capacity` items whose search takes
    /// `log2(capacity)` steps.
    pub fn new(capacity: usize) -> (r: Self)
        requires
            capacity > 0,
        ensures
            r@.0 == Seq::<usize>::empty(),
            r@.1 is None,
            r@.2 == log2_floor(capacity as nat),
            node_wf(r@),
    {
        Node { inner: Vec::with_capacity(capacity), max: None, iterations: ilog2(capacity) }
    }

    /// The item at `index`, if there is one.
    pub fn get(&self, index: usize) -> (r: Option<usize>)
        ensures
            r == (if index < self@.0.len() {
                Some(self@.0[index as int])
            } else {
                None::<usize>
            }),
    {
        if index < self.inner.len() {
            Some(self.inner[index])
        } else {
            None
        }
    }

    /// The recorded maximum.
    pub fn max(&self) -> (r: Option<usize>)
        ensures
            r == self@.1,
    {
        self.max
    }

    /// A copy of the items, in order.
    pub fn items(&self) -> (r: Vec<usize>)
        ensures
            r@ == self@.0,
    {
        self.inner.clone()
    }

    /// Splits the node at `cutoff`: the node keeps the items before it and
    /// the items from it on are returned as a new node. Each part records
    /// its last item as its maximum.
    pub fn split_off(&mut self, cutoff: usize) -> (r: Self)
        requires
            cutoff <= old(self)@.0.len(),
        ensures
            final(self)@.0 == old(self)@.0.take(cutoff as int),
            r@.0 == old(self)@.0.skip(cutoff as int),
            final(self)@.1 == (if cutoff == 0 {
                None::<usize>
            } else {
                Some(old(self)@.0[cutoff - 1])
            }),
            r@.1 == (if cutoff == old(self)@.0.len() {
                None::<usize>
            } else {
                Some(old(self)@.0.last())
            }),
            final(self)@.2 == old(self)@.2,
            r@.2 == old(self)@.2,
            node_wf(old(self)@) ==> node_wf(final(self)@) && node_wf(r@),
    {
        let latter_inner = self.inner.split_off(cutoff);
        proof {
            assert(self.inner@ =~= old(self)@.0.take(cutoff as int));
            assert(latter_inner@ =~= old(self)@.0.skip(cutoff as int));
        }
        self.max = if self.inner.len() > 0 {
            Some(self.inner[self.inner.len() - 1])
        } else {
            None
        };
        let latter_inner_max = if latter_inner.len() > 0 {
            Some(latter_inner[latter_inner.len() - 1])
        } else {
            None
        };
        proof {
            if node_wf(old(self)@) {
                let s = old(self)@.0;
                lemma_sorted_subrange(s, 0, cutoff as int);
                lemma_sorted_subrange(s, cutoff as int, s.len() as int);
                assert(self.inner@ =~= s.subrange(0, cutoff as int));
                assert(latter_inner@ =~= s.subrange(cutoff as int, s.len() as int));
            }
        }
        Node { inner: latter_inner, max: latter_inner_max, iterations: self.iterations }
    }

    /// Splits the node in half.
    pub fn halve(&mut self) -> (r: Self)
        requires
            DEFAULT_CUTOFF <= old(self)@.0.len(),
        ensures
            final(self)@.0 == old(self)@.0.take(DEFAULT_CUTOFF as int),
            r@.0 == old(self)@.0.skip(DEFAULT_CUTOFF as int),
            final(self)@.1 == Some(old(self)@.0[DEFAULT_CUTOFF - 1]),
            r@.1 == (if DEFAULT_CUTOFF == old(self)@.0.len() {
                None::<usize>
            } else {
                Some(old(self)@.0.last())
            }),
            final(self)@.2 == old(self)@.2,
            r@.2 == old(self)@.2,
            node_wf(old(self)@) ==> node_wf(final(self)@) && node_wf(r@),
    {
        self.split_off(DEFAULT_CUTOFF)
    }

    /// The number of items smaller than `value`: the position at which it is
    /// found or would be inserted.
    pub fn partition_point_less(&self, value: usize) -> (r: usize)
        requires
            sorted_strict(self@.0),
        ensures
            r == count_less(self@.0, value),
    {
        let mut left: usize = 0;
        let mut right: usize = self.inner.len();
        proof {
            lemma_count_less_sorted(self@.0, value);
        }
        while left < right
            invariant
                left <= right <= self@.0.len(),
                sorted_strict(self@.0),
                forall|k: int| 0 <= k < left ==> self@.0[k] < value,
                forall|k: int| right <= k < self@.0.len() ==> self@.0[k] >= value,
            decreases right - left,
        {
            let mid = left + (right - left) / 2;
            if self.inner[mid] < value {
                left = mid + 1;
            } else {
                right = mid;
            }
        }
        proof {
            lemma_count_less_unique(self@.0, value, left as int);
        }
        left
    }

    /// The number of items.
    pub fn len(&self) -> (r: usize)
        ensures
            r == self@.0.len(),
    {
        self.inner.len()
    }

    /// Inserts `value` at the position the node's search finds, unless the
    /// search finds it already present. Returns whether it was inserted.
    ///
    /// When the node is shorter than `2^iterations` and sorted, the search is
    /// exact: the value is inserted exactly when it is absent, and at its
    /// sorted position.
    pub fn insert(&mut self, value: usize) -> (r: bool)
        requires
            sorted_strict(old(self)@.0),
        ensures
            final(self)@.2 == old(self)@.2,
            !r ==> final(self)@ == old(self)@ && old(self)@.0.contains(value),
            r ==> final(self)@.1 == max_with(old(self)@.1, value),
            r ==> exists|k: int|
                0 <= k <= old(self)@.0.len() && final(self)@.0 == old(self)@.0.insert(k, value)
                    && forall|i: int| 0 <= i < k ==> old(self)@.0[i] < value,
            node_search_complete(old(self)@) ==> {
                &&& r == !old(self)@.0.contains(value)
                &&& r ==> final(self)@.0 == old(self)@.0.insert(
                    count_less(old(self)@.0, value) as int,
                    value,
                )
                &&& sorted_strict(final(self)@.0)
            },
            node_wf(old(self)@) && node_search_complete(old(self)@) ==> node_wf(final(self)@),
    {
        match search(&self.inner, value, self.iterations) {
            Ok(i) => {
                proof {
                    assert(old(self)@.0[i as int] == value);
                }
                false
            },
            Err(idx) => {
                let ghost s = old(self)@.0;
                match self.max {
                    Some(m) => {
                        if value > m {
                            self.max = Some(value);
                        }
                    },
                    None => {
                        self.max = Some(value);
                    },
                }
                self.inner.insert(idx, value);
                proof {
                    if node_search_complete(old(self)@) {
                        assert(!s.contains(value)) by {
                            if s.contains(value) {
                                let j = choose|j: int| 0 <= j < s.len() && s[j] == value;
                                assert(s[j] == value);
                            }
                        }
                        lemma_count_less_unique(s, value, idx as int);
                        lemma_sorted_insert(s, value, idx as int);
                        if node_wf(old(self)@) {
                            let t = self.inner@;
                            assert forall|i: int| 0 <= i < t.len() implies t[i] <= self.max->0 by {
                                if i < idx {
                                    assert(t[i] == s[i]);
                                } else if i > idx {
                                    assert(t[i] == s[i - 1]);
                                }
                            }
                        }
                    }
                }
                true
            },
        }
    }

    /// Removes and returns the item at `index`.
    pub fn delete(&mut self, index: usize) -> (r: usize)
        requires
            index < old(self)@.0.len(),
        ensures
            r == old(self)@.0[index as int],
            final(self)@.0 == old(self)@.0.remove(index as int),
            final(self)@.1 == old(self)@.1,
            final(self)@.2 == old(self)@.2,
            node_wf(old(self)@) ==> node_wf(final(self)@),
    {
        let r = self.inner.remove(index);
        proof {
            if node_wf(old(self)@) {
                lemma_sorted_remove(old(self)@.0, index as int);
                let t = self.inner@;
                assert forall|i: int| 0 <= i < t.len() implies t[i] <= self.max->0 by {
                    if i < index {
                        assert(t[i] == old(self)@.0[i]);
                    } else {
                        assert(t[i] == old(self)@.0[i + 1]);
                    }
                }
            }
        }
        r
    }
}

impl Default for Node {
    /// An empty node whose search takes ten steps.
    fn default() -> (r: Self)
        ensures
            r@.0 == Seq::<usize>::empty(),
            r@.1 is None,
            r@.2 == 10,
    {
        Node { inner: Vec::new(), max: None, iterations: 10 }
    }
}

} // verus!
