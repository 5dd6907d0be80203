use crate::ftree::{
    lemma_prefix_full, lemma_prefix_mono, lemma_prefix_step, prefix, seq_sum, FenwickTree,
};
use crate::imvec::{
    im_clone, im_get, im_insert, im_len, im_new, im_nodes, im_partition_by_max, im_pop_back,
    im_push_front, im_remove, im_set, im_unit,
};
use crate::node::{
    count_less, exp2, lemma_count_less_sorted, lemma_count_less_unique, lemma_sorted_insert,
    lemma_sorted_remove, lemma_sorted_subrange, log2_floor, max_below, max_with, node_wf,
    partition_boundary, sorted_strict, Node, NodeView, DEFAULT_CUTOFF, DEFAULT_INNER_SIZE,
};
use vstd::prelude::*;

verus! {

/// The items of a list of nodes, in order.
pub open spec fn flatten(nodes: Seq<NodeView>) -> Seq<usize>
    decreases nodes.len(),
{
    if nodes.len() == 0 {
        Seq::empty()
    } else {
        flatten(nodes.drop_last()) + nodes.last().0
    }
}

/// The number of items of each node.
pub open spec fn lens(nodes: Seq<NodeView>) -> Seq<usize> {
    Seq::new(nodes.len(), |i: int| nodes[i].0.len() as usize)
}

/// Every node of the list is well formed, searches completely, and holds at
/// most a full node of items; a list of more than one node holds no empty
/// node; a node's recorded maximum is below every item of every later node.
pub open spec fn nodes_wf(nodes: Seq<NodeView>) -> bool {
    &&& nodes.len() >= 1
    &&& forall|k: int|
        0 <= k < nodes.len() ==> {
            &&& node_wf(#[trigger] nodes[k])
            &&& nodes[k].2 == 10
            &&& nodes[k].0.len() <= DEFAULT_INNER_SIZE
            &&& nodes.len() > 1 ==> nodes[k].0.len() > 0
        }
    &&& forall|i: int, j: int, p: int|
        0 <= i < j < nodes.len() && #[trigger] nodes[i].1 is Some && 0 <= p < nodes[j].0.len()
            ==> #[trigger] nodes[j].0[p] > nodes[i].1->0
    &&& sorted_strict(flatten(nodes))
}

proof fn lemma_flatten_append(a: Seq<NodeView>, b: Seq<NodeView>)
    ensures
        flatten(a + b) == flatten(a) + flatten(b),
    decreases b.len(),
{
    if b.len() == 0 {
        assert(a + b =~= a);
        assert(flatten(b) =~= Seq::<usize>::empty());
        assert(flatten(a) + flatten(b) =~= flatten(a));
    } else {
        lemma_flatten_append(a, b.drop_last());
        assert((a + b).drop_last() =~= a + b.drop_last());
        assert((a + b).last() == b.last());
        assert(flatten(a) + flatten(b.drop_last()) + b.last().0 =~= flatten(a) + (flatten(
            b.drop_last(),
        ) + b.last().0));
    }
}

proof fn lemma_flatten_single(n: NodeView)
    ensures
        flatten(seq![n]) == n.0,
{
    assert(seq![n].drop_last() =~= Seq::<NodeView>::empty());
    assert(seq![n].last() == n);
    assert(flatten(Seq::<NodeView>::empty()) == Seq::<usize>::empty());
    assert(Seq::<usize>::empty() + n.0 =~= n.0);
}

/// The items of a list are those of the nodes before `k`, then node `k`, then
/// those after.
proof fn lemma_flatten_split(nodes: Seq<NodeView>, k: int)
    requires
        0 <= k < nodes.len(),
    ensures
        flatten(nodes) == flatten(nodes.take(k)) + nodes[k].0 + flatten(nodes.skip(k + 1)),
{
    assert(nodes =~= nodes.take(k) + seq![nodes[k]] + nodes.skip(k + 1));
    lemma_flatten_append(nodes.take(k) + seq![nodes[k]], nodes.skip(k + 1));
    lemma_flatten_append(nodes.take(k), seq![nodes[k]]);
    lemma_flatten_single(nodes[k]);
}

proof fn lemma_flatten_len(nodes: Seq<NodeView>)
    requires
        forall|k: int| 0 <= k < nodes.len() ==> #[trigger] nodes[k].0.len() <= usize::MAX,
    ensures
        flatten(nodes).len() == seq_sum(lens(nodes)),
    decreases nodes.len(),
{
    if nodes.len() > 0 {
        let t = nodes.drop_last();
        assert forall|k: int| 0 <= k < t.len() implies #[trigger] t[k].0.len() <= usize::MAX by {
            assert(t[k] == nodes[k]);
        }
        lemma_flatten_len(nodes.drop_last());
        assert(lens(nodes).drop_last() =~= lens(nodes.drop_last()));
        assert(lens(nodes).last() == nodes.last().0.len() as usize);
    }
}

/// The number of items before node `k` is the prefix sum of the counts.
proof fn lemma_flatten_take_len(nodes: Seq<NodeView>, k: int)
    requires
        0 <= k <= nodes.len(),
        forall|k: int| 0 <= k < nodes.len() ==> #[trigger] nodes[k].0.len() <= usize::MAX,
    ensures
        flatten(nodes.take(k)).len() == prefix(lens(nodes), k),
{
    let t = nodes.take(k);
    assert forall|j: int| 0 <= j < t.len() implies #[trigger] t[j].0.len() <= usize::MAX by {
        assert(t[j] == nodes[j]);
    }
    lemma_flatten_len(nodes.take(k));
    assert(lens(nodes.take(k)) =~= lens(nodes).take(k));
}

/// Every item of a list of nodes whose items are all below `v` is below `v`.
proof fn lemma_flatten_all_lt(nodes: Seq<NodeView>, v: int)
    requires
        forall|i: int, p: int| 0 <= i < nodes.len() && 0 <= p < nodes[i].0.len() ==> nodes[i].0[p] < v,
    ensures
        forall|q: int| 0 <= q < flatten(nodes).len() ==> flatten(nodes)[q] < v,
    decreases nodes.len(),
{
    if nodes.len() > 0 {
        let t = nodes.drop_last();
        lemma_flatten_all_lt(t, v);
        let f = flatten(nodes);
        assert forall|q: int| 0 <= q < f.len() implies f[q] < v by {
            if q < flatten(t).len() {
                assert(f[q] == flatten(t)[q]);
            } else {
                assert(f[q] == nodes.last().0[q - flatten(t).len()]);
            }
        }
    }
}

/// Every item of a list of nodes whose items are all above `v` is above `v`.
proof fn lemma_flatten_all_gt(nodes: Seq<NodeView>, v: int)
    requires
        forall|i: int, p: int| 0 <= i < nodes.len() && 0 <= p < nodes[i].0.len() ==> nodes[i].0[p] > v,
    ensures
        forall|q: int| 0 <= q < flatten(nodes).len() ==> flatten(nodes)[q] > v,
    decreases nodes.len(),
{
    if nodes.len() > 0 {
        let t = nodes.drop_last();
        lemma_flatten_all_gt(t, v);
        let f = flatten(nodes);
        assert forall|q: int| 0 <= q < f.len() implies f[q] > v by {
            if q < flatten(t).len() {
                assert(f[q] == flatten(t)[q]);
            } else {
                assert(f[q] == nodes.last().0[q - flatten(t).len()]);
            }
        }
    }
}

proof fn lemma_sorted_lower(s: Seq<usize>, i: int)
    requires
        sorted_strict(s),
        0 <= i < s.len(),
    ensures
        s[i] >= i,
    decreases i,
{
    if i > 0 {
        lemma_sorted_lower(s, i - 1);
    }
}

proof fn lemma_sorted_upper(s: Seq<usize>, i: int)
    requires
        sorted_strict(s),
        0 <= i < s.len(),
    ensures
        s[i] <= usize::MAX - (s.len() - 1 - i),
    decreases s.len() - i,
{
    if i < s.len() - 1 {
        lemma_sorted_upper(s, i + 1);
    }
}

/// Item `p` of node `r` sits at position `prefix(r) + p` of the items.
proof fn lemma_flatten_index(nodes: Seq<NodeView>, r: int, p: int)
    requires
        0 <= r < nodes.len(),
        0 <= p < nodes[r].0.len(),
        forall|k: int| 0 <= k < nodes.len() ==> #[trigger] nodes[k].0.len() <= usize::MAX,
    ensures
        prefix(lens(nodes), r) + p < flatten(nodes).len(),
        flatten(nodes)[prefix(lens(nodes), r) + p] == nodes[r].0[p],
{
    lemma_flatten_split(nodes, r);
    lemma_flatten_take_len(nodes, r);
}

/// The items number the sum of the node counts.
proof fn lemma_flatten_total(nodes: Seq<NodeView>)
    requires
        forall|k: int| 0 <= k < nodes.len() ==> #[trigger] nodes[k].0.len() <= usize::MAX,
    ensures
        flatten(nodes).len() == prefix(lens(nodes), nodes.len() as int),
        flatten(nodes).len() == seq_sum(lens(nodes)),
{
    lemma_flatten_take_len(nodes, nodes.len() as int);
    assert(nodes.take(nodes.len() as int) =~= nodes);
    lemma_flatten_len(nodes);
}

/// A sorted sequence holds `v` exactly at the boundary of the items below it.
proof fn lemma_contains_at_count(s: Seq<usize>, v: usize)
    requires
        sorted_strict(s),
    ensures
        s.contains(v) <==> (count_less(s, v) < s.len() && s[count_less(s, v) as int] == v),
{
    lemma_count_less_sorted(s, v);
    let k = count_less(s, v) as int;
    if s.contains(v) {
        let i = choose|i: int| 0 <= i < s.len() && s[i] == v;
        if i < k {
        } else if i > k {
            assert(s[k] < s[i]);
        }
    }
    if k < s.len() && s[k] == v {
        assert(s[k] == v);
    }
}

/// Inserting a missing value at its sorted position adds it to the set of
/// items; a present value leaves them.
proof fn lemma_insert_set(s: Seq<usize>, v: usize)
    requires
        sorted_strict(s),
    ensures
        !s.contains(v) ==> s.insert(count_less(s, v) as int, v).to_set() == s.to_set().insert(v),
        s.contains(v) ==> s.to_set() == s.to_set().insert(v),
{
    lemma_count_less_sorted(s, v);
    let k = count_less(s, v) as int;
    if !s.contains(v) {
        let t = s.insert(k, v);
        assert forall|x: usize| t.to_set().contains(x) <==> s.to_set().insert(v).contains(x) by {
            if t.contains(x) {
                let i = choose|i: int| 0 <= i < t.len() && t[i] == x;
                if i < k {
                    assert(s[i] == x);
                } else if i > k {
                    assert(s[i - 1] == x);
                }
            }
            if s.contains(x) {
                let i = choose|i: int| 0 <= i < s.len() && s[i] == x;
                if i < k {
                    assert(t[i] == x);
                } else {
                    assert(t[i + 1] == x);
                }
            }
            if x == v {
                assert(t[k] == v);
            }
        }
        assert(t.to_set() =~= s.to_set().insert(v));
    } else {
        assert(s.to_set() =~= s.to_set().insert(v));
    }
}

/// Removing the first item of a non-empty sequence without duplicates
/// removes it from the set of items.
proof fn lemma_remove_first_set(s: Seq<usize>)
    requires
        sorted_strict(s),
        s.len() > 0,
    ensures
        s.remove(0).to_set() + seq![s[0]].to_set() == s.to_set(),
{
    let t = s.remove(0);
    assert forall|x: usize| (t.to_set() + seq![s[0]].to_set()).contains(x) <==> s.to_set().contains(x) by {
        if s.contains(x) {
            let i = choose|i: int| 0 <= i < s.len() && s[i] == x;
            if i > 0 {
                assert(t[i - 1] == x);
            } else {
                assert(seq![s[0]][0] == x);
            }
        }
        if t.contains(x) {
            let i = choose|i: int| 0 <= i < t.len() && t[i] == x;
            assert(s[i + 1] == x);
        }
        if seq![s[0]].contains(x) {
            let i = choose|i: int| 0 <= i < 1 && seq![s[0]][i] == x;
            assert(s[0] == x);
        }
    }
    assert(t.to_set() + seq![s[0]].to_set() =~= s.to_set());
}

/// Two positions of a sorted sequence with equal items are the same.
proof fn lemma_sorted_index_unique(s: Seq<usize>, i: int, j: int)
    requires
        sorted_strict(s),
        0 <= i < s.len(),
        0 <= j < s.len(),
        s[i] == s[j],
    ensures
        i == j,
{
}

/// Where the boundary of `value` falls in a list of nodes: `r` is the node
/// that holds it or would hold it and `pos` its place within that node.
proof fn lemma_locate(nodes: Seq<NodeView>, r: int, pos: int, value: usize)
    requires
        sorted_strict(flatten(nodes)),
        forall|k: int| 0 <= k < nodes.len() ==> #[trigger] nodes[k].0.len() <= usize::MAX,
        0 <= r < nodes.len(),
        0 <= pos <= nodes[r].0.len(),
        forall|i: int, p: int| 0 <= i < r && 0 <= p < nodes[i].0.len() ==> nodes[i].0[p] < value,
        forall|j: int, p: int|
            r < j < nodes.len() && 0 <= p < nodes[j].0.len() ==> nodes[j].0[p] > value,
        forall|p: int| 0 <= p < pos ==> nodes[r].0[p] < value,
        forall|p: int| pos <= p < nodes[r].0.len() ==> nodes[r].0[p] >= value,
    ensures
        count_less(flatten(nodes), value) == prefix(lens(nodes), r) + pos,
        pos < nodes[r].0.len() ==> flatten(nodes)[prefix(lens(nodes), r) + pos] == nodes[r].0[pos],
        pos > 0 ==> flatten(nodes)[prefix(lens(nodes), r) + pos - 1] == nodes[r].0[pos - 1],
        pos == nodes[r].0.len() && prefix(lens(nodes), r) + pos < flatten(nodes).len()
            ==> flatten(nodes)[prefix(lens(nodes), r) + pos] > value,
        flatten(nodes).len() == prefix(lens(nodes), nodes.len() as int),
{
    let f = flatten(nodes);
    let a = flatten(nodes.take(r));
    let b = flatten(nodes.skip(r + 1));
    lemma_flatten_split(nodes, r);
    lemma_flatten_take_len(nodes, r);
    lemma_flatten_take_len(nodes, nodes.len() as int);
    assert(nodes.take(nodes.len() as int) =~= nodes);
    lemma_flatten_all_lt(nodes.take(r), value as int);
    let rest = nodes.skip(r + 1);
    assert forall|j: int, p: int|
        0 <= j < rest.len() && 0 <= p < rest[j].0.len() implies #[trigger] rest[j].0[p] > value by {
        assert(nodes.skip(r + 1)[j] == nodes[r + 1 + j]);
    }
    lemma_flatten_all_gt(nodes.skip(r + 1), value as int);
    let k = a.len() + pos;
    assert forall|i: int| 0 <= i < k implies f[i] < value by {
        if i < a.len() {
            assert(f[i] == a[i]);
        } else {
            assert(f[i] == nodes[r].0[i - a.len()]);
        }
    }
    assert forall|i: int| k <= i < f.len() implies f[i] >= value by {
        if i < a.len() + nodes[r].0.len() {
            assert(f[i] == nodes[r].0[i - a.len()]);
        } else {
            assert(f[i] == b[i - a.len() - nodes[r].0.len()]);
        }
    }
    if pos == nodes[r].0.len() && k < f.len() {
        assert(f[k] == b[k - a.len() - nodes[r].0.len()]);
    }
    lemma_count_less_unique(f, value, k);
}

/// The list without node `k`, when that node is empty, holds the same items.
proof fn lemma_flatten_remove_empty(nodes: Seq<NodeView>, k: int)
    requires
        0 <= k < nodes.len(),
        nodes[k].0.len() == 0,
    ensures
        flatten(nodes.remove(k)) == flatten(nodes),
{
    lemma_flatten_split(nodes, k);
    assert(nodes.remove(k) =~= nodes.take(k) + nodes.skip(k + 1));
    lemma_flatten_append(nodes.take(k), nodes.skip(k + 1));
    assert(flatten(nodes.take(k)) + nodes[k].0 =~= flatten(nodes.take(k)));
}

/// Replacing node `k` changes the items by replacing that node's items.
proof fn lemma_flatten_update(nodes: Seq<NodeView>, k: int, n: NodeView)
    requires
        0 <= k < nodes.len(),
    ensures
        flatten(nodes.update(k, n)) == flatten(nodes.take(k)) + n.0 + flatten(nodes.skip(k + 1)),
{
    let t = nodes.update(k, n);
    lemma_flatten_split(t, k);
    assert(t.take(k) =~= nodes.take(k));
    assert(t.skip(k + 1) =~= nodes.skip(k + 1));
}

/// Replacing node `k` by two nodes changes the items by replacing that
/// node's items with the two nodes' items.
proof fn lemma_flatten_split_node(nodes: Seq<NodeView>, k: int, a: NodeView, b: NodeView)
    requires
        0 <= k < nodes.len(),
    ensures
        flatten(nodes.update(k, a).insert(k + 1, b)) == flatten(nodes.take(k)) + a.0 + b.0
            + flatten(nodes.skip(k + 1)),
{
    let t = nodes.update(k, a).insert(k + 1, b);
    assert(t =~= nodes.take(k) + seq![a, b] + nodes.skip(k + 1));
    lemma_flatten_append(nodes.take(k) + seq![a, b], nodes.skip(k + 1));
    lemma_flatten_append(nodes.take(k), seq![a, b]);
    assert(seq![a, b] =~= seq![a] + seq![b]);
    lemma_flatten_append(seq![a], seq![b]);
    lemma_flatten_single(a);
    lemma_flatten_single(b);
    assert(flatten(nodes.take(k)) + (a.0 + b.0) =~= flatten(nodes.take(k)) + a.0 + b.0);
}

/// Facts about the node that the search of the node list picks for `value`.
proof fn lemma_locate_node(nodes: Seq<NodeView>, r0: usize, value: usize)
    requires
        nodes_wf(nodes),
        partition_boundary(nodes, r0, value),
    ensures
        ({
            let r = if r0 == nodes.len() { nodes.len() - 1 } else { r0 as int };
            &&& 0 <= r < nodes.len()
            &&& forall|i: int, p: int|
                0 <= i < r && 0 <= p < nodes[i].0.len() ==> nodes[i].0[p] < value
            &&& forall|i: int| 0 <= i < r && nodes[i].1 is Some ==> nodes[i].1->0 < value
            &&& forall|j: int, p: int|
                r < j < nodes.len() && 0 <= p < nodes[j].0.len() ==> nodes[j].0[p] > value
            &&& (r0 == nodes.len() ==> max_below(nodes[r], value))
        }),
{
    let n = nodes.len() as int;
    let r = if r0 == nodes.len() { n - 1 } else { r0 as int };
    // the node just before the picked one, or the picked one when past the end
    let q = if r0 == nodes.len() { n - 1 } else { r0 - 1 };
    assert(node_wf(nodes[r]));
    if q >= 0 {
        assert(node_wf(nodes[q]));
        assert(max_below(nodes[q], value));
    }
    assert forall|i: int| 0 <= i < r && nodes[i].1 is Some implies nodes[i].1->0 < value by {
        if i < q {
            assert(nodes[q].0.len() > 0);
            assert(nodes[q].0[0] > nodes[i].1->0);
            assert(nodes[q].0[0] <= nodes[q].1->0);
        }
    }
    assert forall|i: int, p: int| 0 <= i < r && 0 <= p < nodes[i].0.len() implies nodes[i].0[p]
        < value by {
        assert(node_wf(nodes[i]));
        if nodes[i].1 is None {
            assert(nodes[i].0.len() == 0);
        } else {
            assert(nodes[i].0[p] <= nodes[i].1->0);
        }
    }
    assert forall|j: int, p: int| r < j < n && 0 <= p < nodes[j].0.len() implies nodes[j].0[p]
        > value by {
        if nodes[r].1 is None {
            assert(nodes[r].0.len() > 0);
        }
        assert(nodes[j].0[p] > nodes[r].1->0);
    }
}

/// With `value` placed at node `r`, the items hold `value` exactly when that
/// node does, and `value`'s position among the items is its position in the
/// node after the items of the earlier nodes.
proof fn lemma_node_holds(nodes: Seq<NodeView>, r: int, value: usize)
    requires
        sorted_strict(flatten(nodes)),
        forall|k: int| 0 <= k < nodes.len() ==> #[trigger] nodes[k].0.len() <= usize::MAX,
        0 <= r < nodes.len(),
        sorted_strict(nodes[r].0),
        forall|i: int, p: int| 0 <= i < r && 0 <= p < nodes[i].0.len() ==> nodes[i].0[p] < value,
        forall|j: int, p: int|
            r < j < nodes.len() && 0 <= p < nodes[j].0.len() ==> nodes[j].0[p] > value,
    ensures
        flatten(nodes).contains(value) == nodes[r].0.contains(value),
        count_less(flatten(nodes), value) == prefix(lens(nodes), r) + count_less(
            nodes[r].0,
            value,
        ),
{
    let c = count_less(nodes[r].0, value) as int;
    lemma_count_less_sorted(nodes[r].0, value);
    lemma_locate(nodes, r, c, value);
    lemma_contains_at_count(flatten(nodes), value);
    lemma_contains_at_count(nodes[r].0, value);
    let f = flatten(nodes);
    let k = count_less(f, value) as int;
    if c < nodes[r].0.len() {
        lemma_flatten_index(nodes, r, c);
        assert(f[k] == nodes[r].0[c]);
    } else {
        if k < f.len() {
            assert(f[k] > value);
        }
        assert(!nodes[r].0.contains(value));
    }
}

/// Inserting `value` into the node it belongs to inserts it into the items
/// at its sorted position and keeps the node list well formed.
proof fn lemma_insert_at(nodes: Seq<NodeView>, r: int, value: usize, n: NodeView)
    requires
        nodes_wf(nodes),
        0 <= r < nodes.len(),
        forall|i: int, p: int| 0 <= i < r && 0 <= p < nodes[i].0.len() ==> nodes[i].0[p] < value,
        forall|i: int| 0 <= i < r && nodes[i].1 is Some ==> nodes[i].1->0 < value,
        forall|j: int, p: int|
            r < j < nodes.len() && 0 <= p < nodes[j].0.len() ==> nodes[j].0[p] > value,
        !nodes[r].0.contains(value),
        n.0 == nodes[r].0.insert(count_less(nodes[r].0, value) as int, value),
        n.1 == max_with(nodes[r].1, value),
        n.2 == nodes[r].2,
        node_wf(n),
        n.0.len() <= DEFAULT_INNER_SIZE,
    ensures
        nodes_wf(nodes.update(r, n)),
        flatten(nodes.update(r, n)) == flatten(nodes).insert(
            count_less(flatten(nodes), value) as int,
            value,
        ),
        lens(nodes.update(r, n)) == lens(nodes).update(r, (lens(nodes)[r] + 1) as usize),
{
    let t = nodes.update(r, n);
    assert forall|k: int| 0 <= k < nodes.len() implies #[trigger] nodes[k].0.len()
        <= usize::MAX by {
        assert(nodes[k].0.len() <= DEFAULT_INNER_SIZE);
    }
    assert(node_wf(nodes[r]));
    lemma_node_holds(nodes, r, value);
    let c = count_less(nodes[r].0, value) as int;
    lemma_count_less_sorted(nodes[r].0, value);
    let a = flatten(nodes.take(r));
    let b = flatten(nodes.skip(r + 1));
    lemma_flatten_split(nodes, r);
    lemma_flatten_update(nodes, r, n);
    lemma_flatten_take_len(nodes, r);
    let f = flatten(nodes);
    let k = count_less(f, value) as int;
    assert(a + nodes[r].0.insert(c, value) + b =~= (a + nodes[r].0 + b).insert(a.len() + c, value));
    lemma_count_less_sorted(f, value);
    lemma_contains_at_count(f, value);
    assert forall|i: int| k <= i < f.len() implies f[i] > value by {
        if f[i] == value {
            assert(f.contains(value));
        }
    }
    lemma_sorted_insert(f, value, k);
    assert(lens(t) =~= lens(nodes).update(r, (lens(nodes)[r] + 1) as usize));
    assert forall|i: int, j: int, p: int|
        0 <= i < j < t.len() && #[trigger] t[i].1 is Some && 0 <= p < t[j].0.len() implies #[trigger] t[j].0[p]
        > t[i].1->0 by {
        if j == r {
            if p < c {
                assert(t[j].0[p] == nodes[r].0[p]);
            } else if p > c {
                assert(t[j].0[p] == nodes[r].0[p - 1]);
            }
        } else if i == r {
            if nodes[r].1 is Some {
                assert(nodes[j].0[p] > nodes[r].1->0);
            }
        }
    }
    assert forall|k: int| 0 <= k < t.len() implies {
        &&& node_wf(#[trigger] t[k])
        &&& t[k].2 == 10
        &&& t[k].0.len() <= DEFAULT_INNER_SIZE
        &&& t.len() > 1 ==> t[k].0.len() > 0
    } by {
        if k != r {
            assert(t[k] == nodes[k]);
        }
    }
}

/// Splitting a full node in half keeps the items and the well-formedness of
/// the node list.
proof fn lemma_halve_at(nodes: Seq<NodeView>, r: int, a: NodeView, b: NodeView)
    requires
        nodes_wf(nodes),
        0 <= r < nodes.len(),
        nodes[r].0.len() == DEFAULT_INNER_SIZE,
        a.0 == nodes[r].0.take(DEFAULT_CUTOFF as int),
        b.0 == nodes[r].0.skip(DEFAULT_CUTOFF as int),
        a.1 == Some(nodes[r].0[DEFAULT_CUTOFF - 1]),
        b.1 == Some(nodes[r].0.last()),
        a.2 == nodes[r].2,
        b.2 == nodes[r].2,
        node_wf(a),
        node_wf(b),
    ensures
        nodes_wf(nodes.update(r, a).insert(r + 1, b)),
        flatten(nodes.update(r, a).insert(r + 1, b)) == flatten(nodes),
        forall|p: int| 0 <= p < a.0.len() ==> a.0[p] < b.0[0],
{
    let t = nodes.update(r, a).insert(r + 1, b);
    let s = nodes[r].0;
    assert(node_wf(s_node(nodes, r)));
    lemma_flatten_split(nodes, r);
    lemma_flatten_split_node(nodes, r, a, b);
    assert(a.0 + b.0 =~= s);
    assert(flatten(nodes.take(r)) + a.0 + b.0 + flatten(nodes.skip(r + 1)) =~= flatten(nodes.take(
        r,
    )) + s + flatten(nodes.skip(r + 1)));
    assert forall|p: int| 0 <= p < a.0.len() implies a.0[p] < b.0[0] by {
        assert(a.0[p] == s[p]);
        assert(b.0[0] == s[DEFAULT_CUTOFF as int]);
    }
    assert forall|k: int| 0 <= k < t.len() implies {
        &&& node_wf(#[trigger] t[k])
        &&& t[k].2 == 10
        &&& t[k].0.len() <= DEFAULT_INNER_SIZE
        &&& t.len() > 1 ==> t[k].0.len() > 0
    } by {
        if k < r {
            assert(t[k] == nodes[k]);
        } else if k > r + 1 {
            assert(t[k] == nodes[k - 1]);
        }
    }
    assert forall|i: int, j: int, p: int|
        0 <= i < j < t.len() && #[trigger] t[i].1 is Some && 0 <= p < t[j].0.len() implies #[trigger] t[j].0[p]
        > t[i].1->0 by {
        let oi = if i <= r { i } else { i - 1 };
        let oj = if j <= r { j } else { j - 1 };
        // the item and the maximum come from old nodes
        if j == r {
            assert(t[j].0[p] == s[p]);
            assert(oi < r);
        } else if j == r + 1 {
            assert(t[j].0[p] == s[p + DEFAULT_CUTOFF]);
            if i == r {
                assert(s[DEFAULT_CUTOFF - 1] < s[p + DEFAULT_CUTOFF]);
            }
        } else {
            assert(t[j] == nodes[oj]);
            if i == r || i == r + 1 {
                assert(nodes[oj].0[p] > nodes[r].1->0);
                assert(s.last() <= nodes[r].1->0);
                assert(s[DEFAULT_CUTOFF - 1] <= nodes[r].1->0);
            }
        }
    }
}

/// Removing item `pos` of node `r` removes it from the items and keeps the
/// node list well formed; a node left empty may then be dropped when others
/// remain.
proof fn lemma_delete_at(nodes: Seq<NodeView>, r: int, pos: int, n: NodeView)
    requires
        nodes_wf(nodes),
        0 <= r < nodes.len(),
        0 <= pos < nodes[r].0.len(),
        n.0 == nodes[r].0.remove(pos),
        n.1 == nodes[r].1,
        n.2 == nodes[r].2,
        node_wf(n),
    ensures
        prefix(lens(nodes), r) + pos < flatten(nodes).len(),
        flatten(nodes)[prefix(lens(nodes), r) + pos] == nodes[r].0[pos],
        flatten(nodes.update(r, n)) == flatten(nodes).remove(prefix(lens(nodes), r) + pos),
        lens(nodes.update(r, n)) == lens(nodes).update(r, (lens(nodes)[r] - 1) as usize),
        n.0.len() > 0 || nodes.len() == 1 ==> nodes_wf(nodes.update(r, n)),
        n.0.len() == 0 && nodes.len() > 1 ==> nodes_wf(nodes.remove(r)) && flatten(nodes.remove(r))
            == flatten(nodes.update(r, n)),
{
    assert forall|k: int| 0 <= k < nodes.len() implies #[trigger] nodes[k].0.len()
        <= usize::MAX by {
        assert(nodes[k].0.len() <= DEFAULT_INNER_SIZE);
    }
    lemma_flatten_index(nodes, r, pos);
    let t = nodes.update(r, n);
    let a = flatten(nodes.take(r));
    let b = flatten(nodes.skip(r + 1));
    lemma_flatten_split(nodes, r);
    lemma_flatten_update(nodes, r, n);
    lemma_flatten_take_len(nodes, r);
    let f = flatten(nodes);
    assert(a + nodes[r].0.remove(pos) + b =~= (a + nodes[r].0 + b).remove(a.len() + pos));
    lemma_sorted_remove(f, a.len() + pos);
    assert(lens(t) =~= lens(nodes).update(r, (lens(nodes)[r] - 1) as usize));
    assert forall|i: int, j: int, p: int|
        0 <= i < j < t.len() && #[trigger] t[i].1 is Some && 0 <= p < t[j].0.len() implies #[trigger] t[j].0[p]
        > t[i].1->0 by {
        if j == r {
            if p < pos {
                assert(t[j].0[p] == nodes[r].0[p]);
            } else {
                assert(t[j].0[p] == nodes[r].0[p + 1]);
            }
        }
    }
    if n.0.len() > 0 || nodes.len() == 1 {
        assert forall|k: int| 0 <= k < t.len() implies {
            &&& node_wf(#[trigger] t[k])
            &&& t[k].2 == 10
            &&& t[k].0.len() <= DEFAULT_INNER_SIZE
            &&& t.len() > 1 ==> t[k].0.len() > 0
        } by {
            if k != r {
                assert(t[k] == nodes[k]);
            }
        }
    }
    if n.0.len() == 0 && nodes.len() > 1 {
        let u = nodes.remove(r);
        lemma_flatten_remove_empty(t, r);
        assert(t.remove(r) =~= u);
        assert forall|k: int| 0 <= k < u.len() implies {
            &&& node_wf(#[trigger] u[k])
            &&& u[k].2 == 10
            &&& u[k].0.len() <= DEFAULT_INNER_SIZE
            &&& u.len() > 1 ==> u[k].0.len() > 0
        } by {
            if k < r {
                assert(u[k] == nodes[k]);
            } else {
                assert(u[k] == nodes[k + 1]);
            }
        }
        assert forall|i: int, j: int, p: int|
            0 <= i < j < u.len() && #[trigger] u[i].1 is Some && 0 <= p < u[j].0.len() implies #[trigger] u[j].0[p]
            > u[i].1->0 by {
            let oi = if i < r { i } else { i + 1 };
            let oj = if j < r { j } else { j + 1 };
            assert(u[i] == nodes[oi]);
            assert(u[j] == nodes[oj]);
        }
    }
}

/// Splitting node `r` at `pos` into `a` and `b`: the nodes up to `r` ending
/// in `a` hold the items before the split point, and `b` followed by the
/// nodes after `r` holds the rest; both lists stay well formed, `a` dropped
/// from the first when it is empty and other nodes remain, `b` dropped from
/// the second likewise.
proof fn lemma_split_nodes(nodes: Seq<NodeView>, r: int, pos: int, a: NodeView, b: NodeView)
    requires
        nodes_wf(nodes),
        0 <= r < nodes.len(),
        0 <= pos <= nodes[r].0.len(),
        a.0 == nodes[r].0.take(pos),
        b.0 == nodes[r].0.skip(pos),
        a.1 == (if pos == 0 { None::<usize> } else { Some(nodes[r].0[pos - 1]) }),
        b.1 == (if pos == nodes[r].0.len() { None::<usize> } else { Some(nodes[r].0.last()) }),
        a.2 == nodes[r].2,
        b.2 == nodes[r].2,
        node_wf(a),
        node_wf(b),
    ensures
        ({
            let k = prefix(lens(nodes), r) + pos;
            let front = nodes.take(r).push(a);
            let back = seq![b] + nodes.skip(r + 1);
            &&& k <= flatten(nodes).len()
            &&& flatten(front) == flatten(nodes).take(k)
            &&& flatten(back) == flatten(nodes).skip(k)
            &&& (a.0.len() > 0 || r == 0 ==> nodes_wf(front))
            &&& (a.0.len() == 0 && r > 0 ==> nodes_wf(nodes.take(r)) && flatten(nodes.take(r))
                == flatten(front))
            &&& (b.0.len() > 0 || r + 1 == nodes.len() ==> nodes_wf(back))
            &&& (b.0.len() == 0 && r + 1 < nodes.len() ==> nodes_wf(nodes.skip(r + 1)) && flatten(
                nodes.skip(r + 1),
            ) == flatten(back))
        }),
{
    assert forall|k: int| 0 <= k < nodes.len() implies #[trigger] nodes[k].0.len()
        <= usize::MAX by {
        assert(nodes[k].0.len() <= DEFAULT_INNER_SIZE);
    }
    let k = prefix(lens(nodes), r) + pos;
    let front = nodes.take(r).push(a);
    let back = seq![b] + nodes.skip(r + 1);
    let f = flatten(nodes);
    let fa = flatten(nodes.take(r));
    let fb = flatten(nodes.skip(r + 1));
    let s = nodes[r].0;
    assert(node_wf(nodes[r]));
    lemma_flatten_split(nodes, r);
    lemma_flatten_take_len(nodes, r);
    assert(front =~= nodes.take(r) + seq![a]);
    lemma_flatten_append(nodes.take(r), seq![a]);
    lemma_flatten_single(a);
    lemma_flatten_append(seq![b], nodes.skip(r + 1));
    lemma_flatten_single(b);
    assert(fa + a.0 =~= f.take(k));
    assert(b.0 + fb =~= f.skip(k));
    assert forall|i: int| 0 <= i < front.len() implies {
        &&& node_wf(#[trigger] front[i])
        &&& front[i].2 == 10
        &&& front[i].0.len() <= DEFAULT_INNER_SIZE
    } by {
        if i < r {
            assert(front[i] == nodes[i]);
        }
    }
    assert forall|i: int, j: int, p: int|
        0 <= i < j < front.len() && #[trigger] front[i].1 is Some && 0 <= p < front[j].0.len() implies #[trigger] front[j].0[p]
        > front[i].1->0 by {
        assert(front[i] == nodes[i]);
        if j == r {
            assert(front[j].0[p] == s[p]);
        } else {
            assert(front[j] == nodes[j]);
        }
    }
    lemma_sorted_subrange(f, 0, k);
    assert(f.take(k) =~= f.subrange(0, k));
    lemma_sorted_subrange(f, k, f.len() as int);
    assert(f.skip(k) =~= f.subrange(k, f.len() as int));
    if a.0.len() > 0 || r == 0 {
        assert forall|i: int| 0 <= i < front.len() implies (front.len() > 1 ==> #[trigger] front[i].0.len() > 0) by {
            if i < r {
                assert(front[i] == nodes[i]);
            }
        }
    }
    if a.0.len() == 0 && r > 0 {
        let t = nodes.take(r);
        assert(fa + a.0 =~= fa);
        assert forall|i: int| 0 <= i < t.len() implies {
            &&& node_wf(#[trigger] t[i])
            &&& t[i].2 == 10
            &&& t[i].0.len() <= DEFAULT_INNER_SIZE
            &&& t.len() > 1 ==> t[i].0.len() > 0
        } by {
            assert(t[i] == nodes[i]);
        }
    }
    assert forall|i: int| 0 <= i < back.len() implies {
        &&& node_wf(#[trigger] back[i])
        &&& back[i].2 == 10
        &&& back[i].0.len() <= DEFAULT_INNER_SIZE
    } by {
        if i > 0 {
            assert(back[i] == nodes[r + i]);
        }
    }
    assert forall|i: int, j: int, p: int|
        0 <= i < j < back.len() && #[trigger] back[i].1 is Some && 0 <= p < back[j].0.len() implies #[trigger] back[j].0[p]
        > back[i].1->0 by {
        assert(back[j] == nodes[r + j]);
        if i == 0 {
            assert(nodes[r + j].0[p] > nodes[r].1->0);
            assert(s.last() <= nodes[r].1->0);
        } else {
            assert(back[i] == nodes[r + i]);
        }
    }
    if b.0.len() > 0 || r + 1 == nodes.len() {
        assert forall|i: int| 0 <= i < back.len() implies (back.len() > 1 ==> #[trigger] back[i].0.len() > 0) by {
            if i > 0 {
                assert(back[i] == nodes[r + i]);
            }
        }
    }
    if b.0.len() == 0 && r + 1 < nodes.len() {
        let t = nodes.skip(r + 1);
        assert(b.0 + fb =~= fb);
        assert forall|i: int| 0 <= i < t.len() implies {
            &&& node_wf(#[trigger] t[i])
            &&& t[i].2 == 10
            &&& t[i].0.len() <= DEFAULT_INNER_SIZE
            &&& t.len() > 1 ==> t[i].0.len() > 0
        } by {
            assert(t[i] == nodes[r + 1 + i]);
        }
        assert forall|i: int, j: int, p: int|
            0 <= i < j < t.len() && #[trigger] t[i].1 is Some && 0 <= p < t[j].0.len() implies #[trigger] t[j].0[p]
            > t[i].1->0 by {
            assert(t[i] == nodes[r + 1 + i]);
            assert(t[j] == nodes[r + 1 + j]);
        }
    }
}

/// The node at `r`.
spec fn s_node(nodes: Seq<NodeView>, r: int) -> NodeView {
    nodes[r]
}

/// An ordered set of `usize` values, kept as a list of sorted nodes in a
/// persistent vector, with the counts of the nodes summed for positional
/// access.
pub struct BTreeSet {
    inner: im::Vector<Node>,
    index: FenwickTree,
    node_capacity: usize,
    len: usize,
}

impl View for BTreeSet {
    type V = Seq<usize>;

    /// The items of the set in ascending order.
    closed spec fn view(&self) -> Seq<usize> {
        flatten(im_nodes(self.inner))
    }
}

impl BTreeSet {
    /// The node list is well formed, the counts and the length match it, and
    /// nodes hold a full node of items at most.
    pub closed spec fn wf(&self) -> bool {
        let nodes = im_nodes(self.inner);
        &&& nodes_wf(nodes)
        &&& self.index@ == lens(nodes)
        &&& self.len == flatten(nodes).len()
        &&& self.node_capacity == DEFAULT_INNER_SIZE
    }

    proof fn lemma_wf(&self)
        requires
            self.wf(),
        ensures
            sorted_strict(self@),
            forall|k: int|
                0 <= k < im_nodes(self.inner).len() ==> #[trigger] im_nodes(self.inner)[k].0.len()
                    <= usize::MAX,
            seq_sum(self.index@) == self@.len(),
            self@.len() <= usize::MAX,
            self.index@.len() == im_nodes(self.inner).len(),
    {
        let nodes = im_nodes(self.inner);
        assert forall|k: int| 0 <= k < nodes.len() implies #[trigger] nodes[k].0.len()
            <= usize::MAX by {
            assert(nodes[k].0.len() <= DEFAULT_INNER_SIZE);
        }
        lemma_flatten_total(nodes);
    }

    /// The list of one empty node.
    fn single_empty() -> (r: Self)
        ensures
            r.wf(),
            r@ == Seq::<usize>::empty(),
            im_nodes(r.inner).len() == 1,
            im_nodes(r.inner)[0].0.len() == 0,
            r.node_capacity == DEFAULT_INNER_SIZE,
    {
        let node = Node::new(DEFAULT_INNER_SIZE);
        proof {
            reveal_with_fuel(log2_floor, 12);
        }
        let inner = im_unit(node);
        let mut counts: Vec<usize> = Vec::new();
        counts.push(0);
        let r = BTreeSet {
            inner,
            index: FenwickTree::from_counts(counts),
            node_capacity: DEFAULT_INNER_SIZE,
            len: 0,
        };
        proof {
            let nodes = im_nodes(r.inner);
            lemma_flatten_single(nodes[0]);
            assert(nodes =~= seq![nodes[0]]);
            assert(r.index@ =~= lens(nodes));
            assert(sorted_strict(flatten(nodes)));
        }
        r
    }

    /// An empty set.
    pub fn new() -> (r: Self)
        ensures
            r.wf(),
            r@ == Seq::<usize>::empty(),
    {
        Self::single_empty()
    }

    /// Removes every item.
    pub fn clear(&mut self)
        ensures
            final(self).wf(),
            final(self)@ == Seq::<usize>::empty(),
    {
        *self = Self::single_empty();
    }

    /// The counts of the nodes, recomputed from the node list.
    fn count_nodes(inner: &im::Vector<Node>) -> (r: FenwickTree)
        ensures
            r@ == lens(im_nodes(*inner)),
    {
        let n = im_len(inner);
        let mut counts: Vec<usize> = Vec::new();
        let mut k: usize = 0;
        while k < n
            invariant
                k <= n == im_nodes(*inner).len(),
                counts@ =~= lens(im_nodes(*inner)).take(k as int),
            decreases n - k,
        {
            let node = im_get(inner, k).unwrap();
            counts.push(node.len());
            k = k + 1;
            proof {
                assert(counts@ =~= lens(im_nodes(*inner)).take(k as int));
            }
        }
        proof {
            assert(lens(im_nodes(*inner)).take(n as int) =~= lens(im_nodes(*inner)));
        }
        FenwickTree::from_counts(counts)
    }

    /// The node that holds or would hold `value`.
    fn locate_node(&self, value: usize) -> (r: usize)
        requires
            self.wf(),
        ensures
            r < im_nodes(self.inner).len(),
            forall|i: int, p: int|
                0 <= i < r && 0 <= p < im_nodes(self.inner)[i].0.len() ==> im_nodes(
                    self.inner,
                )[i].0[p] < value,
            forall|i: int|
                0 <= i < r && im_nodes(self.inner)[i].1 is Some ==> im_nodes(self.inner)[i].1->0
                    < value,
            forall|j: int, p: int|
                r < j < im_nodes(self.inner).len() && 0 <= p < im_nodes(self.inner)[j].0.len()
                    ==> im_nodes(self.inner)[j].0[p] > value,
            r + 1 == im_nodes(self.inner).len() && im_nodes(self.inner)[r as int].1 is Some
                ==> im_nodes(self.inner)[r as int].1->0 >= value || max_below(
                im_nodes(self.inner)[r as int],
                value,
            ),
    {
        let mut node_idx = im_partition_by_max(&self.inner, value);
        proof {
            lemma_locate_node(im_nodes(self.inner), node_idx, value);
        }
        if im_get(&self.inner, node_idx).is_none() {
            node_idx = node_idx - 1;
        }
        node_idx
    }

    /// The node that holds or would hold `value`, and its place in that node.
    fn locate_value(&self, value: usize) -> (r: (usize, usize))
        requires
            self.wf(),
        ensures
            r.0 < im_nodes(self.inner).len(),
            r.1 <= im_nodes(self.inner)[r.0 as int].0.len(),
            count_less(self@, value) == prefix(self.index@, r.0 as int) + r.1,
            r.1 < im_nodes(self.inner)[r.0 as int].0.len() ==> self@[count_less(self@, value) as int]
                == im_nodes(self.inner)[r.0 as int].0[r.1 as int],
            r.1 > 0 ==> self@[count_less(self@, value) - 1] == im_nodes(self.inner)[r.0 as int].0[r.1
                - 1],
            r.1 == im_nodes(self.inner)[r.0 as int].0.len() && count_less(self@, value)
                < self@.len() ==> self@[count_less(self@, value) as int] > value,
            forall|i: int|
                0 <= i < r.0 && im_nodes(self.inner)[i].1 is Some ==> im_nodes(self.inner)[i].1->0
                    < value,
            forall|i: int, p: int|
                0 <= i < r.0 && 0 <= p < im_nodes(self.inner)[i].0.len() ==> im_nodes(
                    self.inner,
                )[i].0[p] < value,
            forall|j: int, p: int|
                r.0 < j < im_nodes(self.inner).len() && 0 <= p < im_nodes(self.inner)[j].0.len()
                    ==> im_nodes(self.inner)[j].0[p] > value,
    {
        proof {
            self.lemma_wf();
        }
        let node_idx = self.locate_node(value);
        let node = im_get(&self.inner, node_idx).unwrap();
        proof {
            assert(node_wf(im_nodes(self.inner)[node_idx as int]));
        }
        let pos = node.partition_point_less(value);
        proof {
            let nodes = im_nodes(self.inner);
            lemma_count_less_sorted(nodes[node_idx as int].0, value);
            lemma_locate(nodes, node_idx as int, pos as int, value);
        }
        (node_idx, pos)
    }

    /// The nodes the items are kept in.
    pub closed spec fn node_list(&self) -> Seq<NodeView> {
        im_nodes(self.inner)
    }

    /// The number of nodes the items are kept in.
    pub fn node_count(&self) -> (r: usize)
        ensures
            r == self.node_list().len(),
    {
        im_len(&self.inner)
    }

    /// The number of items.
    pub fn len(&self) -> (r: usize)
        requires
            self.wf(),
        ensures
            r == self@.len(),
    {
        self.len
    }

    /// Whether the set holds no item.
    pub fn is_empty(&self) -> (r: bool)
        requires
            self.wf(),
        ensures
            r == (self@.len() == 0),
    {
        self.len() == 0
    }

    /// Whether the set holds `value`.
    pub fn contains(&self, value: usize) -> (r: bool)
        requires
            self.wf(),
        ensures
            r == self@.contains(value),
    {
        proof {
            self.lemma_wf();
            lemma_contains_at_count(self@, value);
        }
        let (node_idx, pos) = self.locate_value(value);
        let node = im_get(&self.inner, node_idx).unwrap();
        proof {
            lemma_count_less_sorted(self@, value);
            let k = count_less(self@, value);
            if pos == node@.0.len() && k < self@.len() {
                assert(self@[k as int] > value);
            }
        }
        match node.get(pos) {
            Some(candidate) => value == candidate,
            None => false,
        }
    }

    /// The number of items smaller than `value`: the position it holds or
    /// would take in ascending order.
    pub fn rank(&self, value: usize) -> (r: usize)
        requires
            self.wf(),
        ensures
            r == count_less(self@, value),
    {
        proof {
            self.lemma_wf();
            lemma_count_less_sorted(self@, value);
        }
        let (node_idx, pos) = self.locate_value(value);
        let offset = self.index.prefix_sum(node_idx, 0);
        offset + pos
    }

    /// `Ok` with the position of `value` when the set holds it, `Err` with
    /// the position it would take otherwise.
    pub fn find(&self, value: usize) -> (r: Result<usize, usize>)
        requires
            self.wf(),
        ensures
            self@.contains(value) ==> r == Ok::<usize, usize>(count_less(self@, value) as usize),
            !self@.contains(value) ==> r == Err::<usize, usize>(count_less(self@, value) as usize),
    {
        proof {
            self.lemma_wf();
            lemma_contains_at_count(self@, value);
            lemma_count_less_sorted(self@, value);
        }
        let (node_idx, pos) = self.locate_value(value);
        let offset = self.index.prefix_sum(node_idx, 0);
        let node = im_get(&self.inner, node_idx).unwrap();
        if let Some(candidate) = node.get(pos) {
            if value == candidate {
                return Ok(offset + pos);
            }
        }
        Err(offset + pos)
    }

    /// The item equal to `value`, if the set holds it.
    pub fn get(&self, value: usize) -> (r: Option<usize>)
        requires
            self.wf(),
        ensures
            r == (if self@.contains(value) {
                Some(value)
            } else {
                None::<usize>
            }),
    {
        if self.contains(value) {
            Some(value)
        } else {
            None
        }
    }

    /// The smallest item not less than `value`, if any.
    pub fn lower_bound(&self, value: usize) -> (r: Option<usize>)
        requires
            self.wf(),
        ensures
            r == (if count_less(self@, value) < self@.len() {
                Some(self@[count_less(self@, value) as int])
            } else {
                None::<usize>
            }),
    {
        proof {
            self.lemma_wf();
            lemma_count_less_sorted(self@, value);
        }
        let (node_idx, pos) = self.locate_value(value);
        let node = im_get(&self.inner, node_idx).unwrap();
        if pos < node.len() {
            return node.get(pos);
        }
        // The node's recorded maximum may exceed its items, in which case the
        // smallest item not less than `value` opens the next node.
        let n = im_len(&self.inner);
        if node_idx + 1 < n {
            let next = im_get(&self.inner, node_idx + 1).unwrap();
            {
                proof {
                    let nodes = im_nodes(self.inner);
                    assert(nodes[node_idx + 1].0.len() > 0);
                    lemma_flatten_index(nodes, node_idx + 1, 0);
                    lemma_prefix_step(self.index@, node_idx as int);
                }
                next.get(0)
            }
        } else {
            {
                proof {
                    let nodes = im_nodes(self.inner);
                    lemma_flatten_total(nodes);
                    lemma_prefix_step(self.index@, node_idx as int);
                    assert(node_idx + 1 == nodes.len());
                }
                None
            }
        }
    }

    /// The largest item strictly less than `value`, if any.
    pub fn upper_bound_exclusive(&self, value: usize) -> (r: Option<usize>)
        requires
            self.wf(),
        ensures
            r == (if count_less(self@, value) > 0 {
                Some(self@[count_less(self@, value) - 1])
            } else {
                None::<usize>
            }),
    {
        proof {
            self.lemma_wf();
        }
        let (node_idx, pos) = self.locate_value(value);
        if pos != 0 {
            let node = im_get(&self.inner, node_idx).unwrap();
            return node.get(pos - 1);
        } else if node_idx != 0 {
            let prev = im_get(&self.inner, node_idx - 1).unwrap();
            proof {
                let nodes = im_nodes(self.inner);
                assert(nodes[node_idx - 1].0.len() > 0);
                lemma_flatten_index(nodes, node_idx - 1, nodes[node_idx - 1].0.len() - 1);
                lemma_prefix_step(self.index@, node_idx - 1);
            }
            let n = prev.len();
            return prev.get(n - 1);
        }
        proof {
            assert(self.index@.take(0) =~= Seq::<usize>::empty());
        }
        None
    }

    /// The node holding the item at position `idx` and its place there.
    fn locate_ith(&self, idx: usize) -> (r: Option<(usize, usize)>)
        requires
            self.wf(),
        ensures
            idx >= self@.len() ==> r is None,
            idx < self@.len() ==> match r {
                Some((k, p)) => k < im_nodes(self.inner).len() && p < im_nodes(
                    self.inner,
                )[k as int].0.len() && self@[idx as int] == im_nodes(self.inner)[k as int].0[p as int],
                None => false,
            },
    {
        proof {
            self.lemma_wf();
        }
        if idx >= self.len() {
            return None;
        }
        let mut node_index = self.index.index_of(idx);
        let mut offset: usize = 0;
        if node_index != 0 {
            offset = self.index.prefix_sum(node_index, 0);
        }
        proof {
            assert(self.index@.take(0) =~= Seq::<usize>::empty());
            lemma_prefix_step(self.index@, node_index as int);
        }
        let mut position_within_node = idx - offset;
        if let Some(node) = im_get(&self.inner, node_index) {
            if position_within_node > node.len() - 1 {
                node_index = node_index + 1;
                position_within_node = 0;
            }
        }
        proof {
            lemma_flatten_index(im_nodes(self.inner), node_index as int, position_within_node as int);
        }
        Some((node_index, position_within_node))
    }

    /// The item at position `idx` in ascending order, if any.
    pub fn get_index(&self, idx: usize) -> (r: Option<usize>)
        requires
            self.wf(),
        ensures
            r == (if idx < self@.len() {
                Some(self@[idx as int])
            } else {
                None::<usize>
            }),
    {
        match self.locate_ith(idx) {
            Some((node_idx, position_within_node)) => {
                match im_get(&self.inner, node_idx) {
                    Some(candidate_node) => candidate_node.get(position_within_node),
                    None => None,
                }
            },
            None => None,
        }
    }

    /// The smallest item, if any.
    pub fn first(&self) -> (r: Option<usize>)
        requires
            self.wf(),
        ensures
            r == (if self@.len() > 0 {
                Some(self@[0])
            } else {
                None::<usize>
            }),
    {
        proof {
            self.lemma_wf();
            let nodes = im_nodes(self.inner);
            if nodes[0].0.len() > 0 {
                lemma_flatten_index(nodes, 0, 0);
                assert(self.index@.take(0) =~= Seq::<usize>::empty());
            } else {
                assert(nodes.len() == 1);
                lemma_flatten_single(nodes[0]);
                assert(nodes =~= seq![nodes[0]]);
            }
        }
        if let Some(candidate_node) = im_get(&self.inner, 0) {
            return candidate_node.get(0);
        }
        None
    }

    /// The largest item, if any.
    pub fn last(&self) -> (r: Option<usize>)
        requires
            self.wf(),
        ensures
            r == (if self@.len() > 0 {
                Some(self@.last())
            } else {
                None::<usize>
            }),
    {
        let n = im_len(&self.inner);
        proof {
            self.lemma_wf();
            let nodes = im_nodes(self.inner);
            let k = n - 1;
            lemma_flatten_split(nodes, k as int);
            assert(nodes.skip(k + 1) =~= Seq::<NodeView>::empty());
            assert(flatten(nodes.skip(k + 1)) == Seq::<usize>::empty());
            if nodes[k as int].0.len() > 0 {
                lemma_flatten_index(nodes, k as int, nodes[k as int].0.len() - 1);
            } else {
                assert(nodes.len() == 1);
                lemma_flatten_single(nodes[0]);
                assert(nodes =~= seq![nodes[0]]);
            }
        }
        if let Some(candidate_node) = im_get(&self.inner, n - 1) {
            if candidate_node.len() > 0 {
                return candidate_node.get(candidate_node.len() - 1);
            }
        }
        None
    }

    /// Takes the node at `idx` out of the list, inserts `value` into it and
    /// puts it back. Returns whether the value was inserted.
    fn insert_into_node(&mut self, idx: usize, value: usize) -> (r: bool)
        requires
            idx < im_nodes(old(self).inner).len(),
            nodes_wf(im_nodes(old(self).inner)),
            im_nodes(old(self).inner)[idx as int].0.len() < DEFAULT_INNER_SIZE,
        ensures
            final(self).index == old(self).index,
            final(self).len == old(self).len,
            final(self).node_capacity == old(self).node_capacity,
            r == !im_nodes(old(self).inner)[idx as int].0.contains(value),
            !r ==> im_nodes(final(self).inner) == im_nodes(old(self).inner),
            r ==> im_nodes(final(self).inner) == im_nodes(old(self).inner).update(
                idx as int,
                (
                    im_nodes(old(self).inner)[idx as int].0.insert(
                        count_less(im_nodes(old(self).inner)[idx as int].0, value) as int,
                        value,
                    ),
                    max_with(im_nodes(old(self).inner)[idx as int].1, value),
                    im_nodes(old(self).inner)[idx as int].2,
                ),
            ),
            r ==> node_wf(im_nodes(final(self).inner)[idx as int]),
    {
        let ghost nodes = im_nodes(self.inner);
        let mut target = im_set(&mut self.inner, idx, Node::default());
        proof {
            assert(node_wf(nodes[idx as int]));
            assert(exp2(10) == 1024) by {
                reveal_with_fuel(exp2, 11);
            }
        }
        let inserted = target.insert(value);
        im_set(&mut self.inner, idx, target);
        proof {
            if !inserted {
                assert(im_nodes(self.inner) =~= nodes);
            } else {
                assert(target@ == (
                    nodes[idx as int].0.insert(count_less(nodes[idx as int].0, value) as int, value),
                    max_with(nodes[idx as int].1, value),
                    nodes[idx as int].2,
                ));
            }
        }
        inserted
    }

    /// The facts that place `value` in node `r` of the node list.
    spec fn placed_at(nodes: Seq<NodeView>, r: int, value: usize) -> bool {
        &&& 0 <= r < nodes.len()
        &&& forall|i: int, p: int|
            0 <= i < r && 0 <= p < nodes[i].0.len() ==> nodes[i].0[p] < value
        &&& forall|i: int| 0 <= i < r && nodes[i].1 is Some ==> nodes[i].1->0 < value
        &&& forall|j: int, p: int|
            r < j < nodes.len() && 0 <= p < nodes[j].0.len() ==> nodes[j].0[p] > value
    }

    /// Inserts `value` into node `node_idx`, which it belongs to and which has
    /// room.
    fn insert_plain(&mut self, node_idx: usize, value: usize) -> (r: bool)
        requires
            old(self).wf(),
            old(self)@.len() < usize::MAX,
            Self::placed_at(im_nodes(old(self).inner), node_idx as int, value),
            im_nodes(old(self).inner)[node_idx as int].0.len() < DEFAULT_INNER_SIZE,
        ensures
            final(self).wf(),
            r == !old(self)@.contains(value),
            r ==> final(self)@ == old(self)@.insert(count_less(old(self)@, value) as int, value),
            !r ==> final(self)@ == old(self)@,
    {
        let ghost old_nodes = im_nodes(self.inner);
        proof {
            self.lemma_wf();
            lemma_count_less_sorted(self@, value);
            assert(node_wf(old_nodes[node_idx as int]));
            lemma_node_holds(old_nodes, node_idx as int, value);
            lemma_count_less_sorted(old_nodes[node_idx as int].0, value);
        }
        let inserted = self.insert_into_node(node_idx, value);
        if inserted {
            proof {
                lemma_insert_at(
                    old_nodes,
                    node_idx as int,
                    value,
                    im_nodes(self.inner)[node_idx as int],
                );
                assert(lens(old_nodes)[node_idx as int] < DEFAULT_INNER_SIZE);
            }
            self.index.add_at(node_idx, 1);
            self.len = self.len + 1;
            proof {
                let nodes = im_nodes(self.inner);
                assert(nodes_wf(nodes));
                assert(self.index@ == lens(nodes));
                assert(self.len == flatten(nodes).len());
            }
            true
        } else {
            false
        }
    }

    /// Splits the full node `node_idx`, which `value` belongs to, in half and
    /// inserts `value` into the half it belongs to.
    #[verifier::rlimit(50)]
    fn insert_split(&mut self, node_idx: usize, value: usize) -> (r: bool)
        requires
            old(self).wf(),
            old(self)@.len() < usize::MAX,
            Self::placed_at(im_nodes(old(self).inner), node_idx as int, value),
            im_nodes(old(self).inner)[node_idx as int].0.len() == DEFAULT_INNER_SIZE,
        ensures
            final(self).wf(),
            r == !old(self)@.contains(value),
            r ==> final(self)@ == old(self)@.insert(count_less(old(self)@, value) as int, value),
            !r ==> final(self)@ == old(self)@,
            final(self)@ == inserted(old(self)@, value),
    {
        proof {
            self.lemma_wf();
            lemma_count_less_sorted(self@, value);
        }
        let ghost old_nodes = im_nodes(self.inner);
        let mut node = im_set(&mut self.inner, node_idx, Node::default());
        let ghost full = node@;
        proof {
            assert(node_wf(full));
        }
        let new_node = node.halve();
        let new_node_min = new_node.get(0).unwrap();
        let n = im_len(&self.inner);
        im_set(&mut self.inner, node_idx, node);
        im_insert(&mut self.inner, node_idx + 1, new_node);
        let ghost split_nodes = im_nodes(self.inner);
        proof {
            assert(split_nodes == old_nodes.update(node_idx as int, node@).insert(
                node_idx + 1,
                new_node@,
            ));
            lemma_halve_at(old_nodes, node_idx as int, node@, new_node@);
        }
        let insert_node_idx = if value < new_node_min {
            node_idx
        } else {
            node_idx + 1
        };
        proof {
            let t = split_nodes;
            let r = insert_node_idx as int;
            let s = full.0;
            assert forall|i: int, p: int|
                0 <= i < r && 0 <= p < t[i].0.len() implies t[i].0[p] < value by {
                if i == node_idx {
                    assert(t[i].0[p] < new_node@.0[0]);
                }
            }
            assert forall|i: int| 0 <= i < r && t[i].1 is Some implies t[i].1->0 < value by {
                if i == node_idx {
                    assert(t[i].1->0 == s[DEFAULT_CUTOFF - 1]);
                    assert(s[DEFAULT_CUTOFF - 1] < s[DEFAULT_CUTOFF as int]);
                }
            }
            assert forall|j: int, p: int|
                r < j < t.len() && 0 <= p < t[j].0.len() implies t[j].0[p] > value by {
                if j == node_idx + 1 {
                    assert(t[j].0[p] == s[p + DEFAULT_CUTOFF]);
                    assert(s[p + DEFAULT_CUTOFF] >= s[DEFAULT_CUTOFF as int]);
                } else {
                    assert(t[j] == old_nodes[j - 1]);
                }
            }
            assert forall|k: int| 0 <= k < t.len() implies #[trigger] t[k].0.len()
                <= usize::MAX by {
                assert(t[k].0.len() <= DEFAULT_INNER_SIZE);
            }
            assert(node_wf(t[r]));
            lemma_node_holds(t, r, value);
            lemma_count_less_sorted(t[r].0, value);
        }
        let inserted = self.insert_into_node(insert_node_idx, value);
        // The node list changed shape, so the counts are recomputed.
        self.index = Self::count_nodes(&self.inner);
        if inserted {
            proof {
                lemma_insert_at(
                    split_nodes,
                    insert_node_idx as int,
                    value,
                    im_nodes(self.inner)[insert_node_idx as int],
                );
            }
            self.len = self.len + 1;
            true
        } else {
            false
        }
    }

    /// Adds `value` to the set. Returns whether it was newly inserted; a
    /// value already present leaves the items as they were.
    ///
    /// A node that is full is first split in half.
    pub fn insert(&mut self, value: usize) -> (r: bool)
        requires
            old(self).wf(),
            old(self)@.len() < usize::MAX,
        ensures
            final(self).wf(),
            r == !old(self)@.contains(value),
            r ==> final(self)@ == old(self)@.insert(count_less(old(self)@, value) as int, value),
            !r ==> final(self)@ == old(self)@,
            final(self)@ == inserted(old(self)@, value),
    {
        proof {
            self.lemma_wf();
            lemma_count_less_sorted(self@, value);
        }
        let node_idx = self.locate_node(value);
        let node_len = im_get(&self.inner, node_idx).unwrap().len();
        proof {
            assert(node_len <= DEFAULT_INNER_SIZE);
        }
        if node_len == DEFAULT_INNER_SIZE {
            self.insert_split(node_idx, value)
        } else {
            self.insert_plain(node_idx, value)
        }
    }

    /// A copy of the set with `value` added.
    pub fn insert_update(&self, value: usize) -> (r: Self)
        requires
            self.wf(),
            self@.len() < usize::MAX,
        ensures
            r.wf(),
            self@.contains(value) ==> r@ == self@,
            !self@.contains(value) ==> r@ == self@.insert(count_less(self@, value) as int, value),
    {
        let mut next = self.clone();
        next.insert(value);
        next
    }

    /// Removes and returns item `pos` of node `node_idx`, dropping the node
    /// when it is left empty and others remain.
    fn delete_at(&mut self, node_idx: usize, position_within_node: usize) -> (r: usize)
        requires
            old(self).wf(),
            node_idx < im_nodes(old(self).inner).len(),
            position_within_node < im_nodes(old(self).inner)[node_idx as int].0.len(),
        ensures
            final(self).wf(),
            prefix(old(self).index@, node_idx as int) + position_within_node < old(self)@.len(),
            r == old(self)@[prefix(old(self).index@, node_idx as int) + position_within_node],
            final(self)@ == old(self)@.remove(
                prefix(old(self).index@, node_idx as int) + position_within_node,
            ),
    {
        proof {
            self.lemma_wf();
        }
        let ghost old_nodes = im_nodes(self.inner);
        let mut node = im_set(&mut self.inner, node_idx, Node::default());
        proof {
            assert(node_wf(old_nodes[node_idx as int]));
        }
        let removal = node.delete(position_within_node);
        let remaining = node.len();
        im_set(&mut self.inner, node_idx, node);
        proof {
            lemma_delete_at(old_nodes, node_idx as int, position_within_node as int, node@);
            assert(im_nodes(self.inner) == old_nodes.update(node_idx as int, node@));
        }
        let mut decrease_length = false;
        if remaining == 0 {
            if im_len(&self.inner) > 1 {
                im_remove(&mut self.inner, node_idx);
                proof {
                    assert(im_nodes(self.inner) == old_nodes.update(node_idx as int, node@).remove(
                        node_idx as int,
                    ));
                    assert(old_nodes.update(node_idx as int, node@).remove(node_idx as int)
                        =~= old_nodes.remove(node_idx as int));
                }
                self.len = self.len - 1;
                self.index = Self::count_nodes(&self.inner);
            } else {
                decrease_length = true;
            }
        } else {
            decrease_length = true;
        }
        if decrease_length {
            self.index.sub_at(node_idx, 1);
            self.len = self.len - 1;
        }
        removal
    }

    /// Removes `value` if present; returns it and whether it was removed.
    fn delete(&mut self, value: usize) -> (r: (Option<usize>, bool))
        requires
            old(self).wf(),
        ensures
            final(self).wf(),
            r.1 == old(self)@.contains(value),
            r.0 == (if r.1 { Some(value) } else { None::<usize> }),
            r.1 ==> final(self)@ == old(self)@.remove(count_less(old(self)@, value) as int),
            !r.1 ==> final(self)@ == old(self)@,
    {
        proof {
            self.lemma_wf();
            lemma_contains_at_count(self@, value);
            lemma_count_less_sorted(self@, value);
        }
        let mut removed = false;
        let mut removal = None;
        let (node_idx, position_within_node) = self.locate_value(value);
        proof {
            let k = count_less(self@, value);
            if position_within_node == im_nodes(self.inner)[node_idx as int].0.len() && k
                < self@.len() {
                assert(self@[k as int] > value);
            }
        }
        let mut candidate_value: Option<usize> = None;
        if let Some(candidate_node) = im_get(&self.inner, node_idx) {
            candidate_value = candidate_node.get(position_within_node);
        }
        if let Some(c) = candidate_value {
            if value == c {
                removal = Some(self.delete_at(node_idx, position_within_node));
                removed = true;
            }
        }
        (removal, removed)
    }

    /// Removes `value` if present. Returns whether it was present.
    pub fn remove(&mut self, value: usize) -> (r: bool)
        requires
            old(self).wf(),
        ensures
            final(self).wf(),
            r == old(self)@.contains(value),
            r ==> final(self)@ == old(self)@.remove(count_less(old(self)@, value) as int),
            !r ==> final(self)@ == old(self)@,
            final(self)@ == removed(old(self)@, value),
    {
        self.delete(value).1
    }

    /// A copy of the set with `value` removed.
    pub fn remove_update(&self, value: usize) -> (r: Self)
        requires
            self.wf(),
        ensures
            r.wf(),
            self@.contains(value) ==> r@ == self@.remove(count_less(self@, value) as int),
            !self@.contains(value) ==> r@ == self@,
    {
        let mut next = self.clone();
        next.remove(value);
        next
    }

    /// Removes and returns the smallest item, if any.
    pub fn pop_first(&mut self) -> (r: Option<usize>)
        requires
            old(self).wf(),
        ensures
            final(self).wf(),
            old(self)@.len() == 0 ==> r is None && final(self)@ == old(self)@,
            old(self)@.len() > 0 ==> r == Some(old(self)@[0]) && final(self)@ == old(self)@.remove(
                0,
            ),
    {
        proof {
            self.lemma_wf();
            let nodes = im_nodes(self.inner);
            assert(self.index@.take(0) =~= Seq::<usize>::empty());
            if nodes[0].0.len() == 0 {
                assert(nodes.len() == 1);
                lemma_flatten_single(nodes[0]);
                assert(nodes =~= seq![nodes[0]]);
            }
        }
        let (first_node_idx, first_position_within_node) = (0, 0);
        let mut present = false;
        if let Some(candidate_node) = im_get(&self.inner, first_node_idx) {
            if candidate_node.get(first_position_within_node).is_some() {
                present = true;
            }
        }
        if present {
            return Some(self.delete_at(first_node_idx, first_position_within_node));
        }
        None
    }

    /// Removes and returns the item at position `idx`; `idx` must be below
    /// the number of items.
    pub fn pop_index(&mut self, idx: usize) -> (r: usize)
        requires
            old(self).wf(),
            idx < old(self)@.len(),
        ensures
            final(self).wf(),
            r == old(self)@[idx as int],
            final(self)@ == old(self)@.remove(idx as int),
    {
        let (node_idx, position_within_node) = self.locate_ith(idx).unwrap();
        proof {
            self.lemma_wf();
            lemma_flatten_index(im_nodes(self.inner), node_idx as int, position_within_node as int);
            lemma_sorted_index_unique(self@, idx as int, prefix(self.index@, node_idx as int)
                + position_within_node);
        }
        self.delete_at(node_idx, position_within_node)
    }

    /// Removes and returns the largest item, if any.
    pub fn pop_last(&mut self) -> (r: Option<usize>)
        requires
            old(self).wf(),
        ensures
            final(self).wf(),
            old(self)@.len() == 0 ==> r is None && final(self)@ == old(self)@,
            old(self)@.len() > 0 ==> r == Some(old(self)@.last()) && final(self)@
                == old(self)@.drop_last(),
    {
        proof {
            self.lemma_wf();
        }
        let last_node_idx = im_len(&self.inner) - 1;
        let mut last_position_within_node = im_get(&self.inner, last_node_idx).unwrap().len();
        last_position_within_node = last_position_within_node.saturating_sub(1);
        proof {
            let nodes = im_nodes(self.inner);
            let k = last_node_idx as int;
            lemma_flatten_split(nodes, k);
            assert(nodes.skip(k + 1) =~= Seq::<NodeView>::empty());
            assert(flatten(nodes.skip(k + 1)) == Seq::<usize>::empty());
            lemma_flatten_take_len(nodes, k);
            if nodes[k].0.len() == 0 {
                assert(nodes.len() == 1);
                lemma_flatten_single(nodes[0]);
                assert(nodes =~= seq![nodes[0]]);
            }
        }
        let mut present = false;
        if let Some(candidate_node) = im_get(&self.inner, last_node_idx) {
            if candidate_node.get(last_position_within_node).is_some() {
                present = true;
            }
        }
        if present {
            let ghost before = self@;
            let r = self.delete_at(last_node_idx, last_position_within_node);
            proof {
                assert(before.remove(before.len() - 1) =~= before.drop_last());
            }
            return Some(r);
        }
        None
    }

    /// The number of items of a node list, summed from its counts.
    fn total(index: &FenwickTree) -> (r: usize)
        requires
            seq_sum(index@) <= usize::MAX,
        ensures
            r == seq_sum(index@),
    {
        proof {
            lemma_prefix_full(index@);
        }
        index.prefix_sum(index.len(), 0)
    }

    /// Moves the nodes after `node_idx` out of `inner` into a new list.
    fn take_tail(inner: &mut im::Vector<Node>, node_idx: usize) -> (r: im::Vector<Node>)
        requires
            node_idx < im_nodes(*old(inner)).len(),
        ensures
            im_nodes(*final(inner)) == im_nodes(*old(inner)).take(node_idx + 1),
            im_nodes(r) == im_nodes(*old(inner)).skip(node_idx + 1),
    {
        let ghost n1 = im_nodes(*inner);
        let n = im_len(inner);
        let keep = node_idx + 1;
        let mut remaining_nodes = im_new();
        while im_len(inner) > keep
            invariant
                im_nodes(*inner) + im_nodes(remaining_nodes) == n1,
                im_nodes(*inner).len() >= keep,
                keep == node_idx + 1,
                n1.len() == n,
            decreases im_nodes(*inner).len(),
        {
            let ghost before = im_nodes(*inner);
            let last = im_pop_back(inner).unwrap();
            im_push_front(&mut remaining_nodes, last);
            proof {
                assert(im_nodes(*inner) + im_nodes(remaining_nodes) =~= before
                    + im_nodes(remaining_nodes).drop_first());
            }
        }
        proof {
            assert(im_nodes(*inner) =~= n1.take(keep as int));
            assert(im_nodes(remaining_nodes) =~= n1.skip(keep as int));
        }
        remaining_nodes
    }

    /// Splits the set at `value`: the set keeps the items below it and the
    /// items not below it are returned as a new set.
    ///
    /// A node left empty by the split is dropped from either side when other
    /// nodes remain there.
    #[verifier::rlimit(50)]
    pub fn split_off(&mut self, value: usize) -> (r: Self)
        requires
            old(self).wf(),
        ensures
            final(self).wf(),
            r.wf(),
            final(self)@ == old(self)@.take(count_less(old(self)@, value) as int),
            r@ == old(self)@.skip(count_less(old(self)@, value) as int),
    {
        proof {
            self.lemma_wf();
        }
        let ghost old_nodes = im_nodes(self.inner);
        let (node_idx, position_within_node) = self.locate_value(value);
        let mut node = im_set(&mut self.inner, node_idx, Node::default());
        proof {
            assert(node_wf(old_nodes[node_idx as int]));
        }
        let first_node = node.split_off(position_within_node);
        im_set(&mut self.inner, node_idx, node);
        proof {
            lemma_split_nodes(
                old_nodes,
                node_idx as int,
                position_within_node as int,
                node@,
                first_node@,
            );
        }
        let mut remaining_nodes = Self::take_tail(&mut self.inner, node_idx);
        proof {
            assert(im_nodes(self.inner) =~= old_nodes.take(node_idx as int).push(node@));
            assert(im_nodes(remaining_nodes) =~= old_nodes.skip(node_idx + 1));
        }
        // A leading empty node is kept only when nothing follows it, so that
        // no node without a recorded maximum precedes others.
        if first_node.len() > 0 || im_len(&remaining_nodes) == 0 {
            im_insert(&mut remaining_nodes, 0, first_node);
            proof {
                assert(im_nodes(remaining_nodes) =~= seq![first_node@] + old_nodes.skip(
                    node_idx + 1,
                ));
            }
        }
        let mut latter_half = BTreeSet::default();
        let latter_index = Self::count_nodes(&remaining_nodes);
        proof {
            let l = im_nodes(remaining_nodes);
            assert(nodes_wf(l));
            assert forall|k: int| 0 <= k < l.len() implies #[trigger] l[k].0.len() <= usize::MAX by {
                assert(l[k].0.len() <= DEFAULT_INNER_SIZE);
            }
            lemma_flatten_total(l);
        }
        latter_half.len = Self::total(&latter_index);
        latter_half.inner = remaining_nodes;
        latter_half.index = latter_index;
        let kept = im_get(&self.inner, node_idx).unwrap().len();
        if kept == 0 && im_len(&self.inner) > 1 {
            im_remove(&mut self.inner, node_idx);
            proof {
                assert(im_nodes(self.inner) =~= old_nodes.take(node_idx as int));
            }
        }
        self.index = Self::count_nodes(&self.inner);
        proof {
            let l = im_nodes(self.inner);
            assert(nodes_wf(l));
            assert forall|k: int| 0 <= k < l.len() implies #[trigger] l[k].0.len() <= usize::MAX by {
                assert(l[k].0.len() <= DEFAULT_INNER_SIZE);
            }
            lemma_flatten_total(l);
        }
        self.len = Self::total(&self.index);
        latter_half
    }

    /// Moves every item of `other` into the set, leaving `other` empty.
    pub fn append(&mut self, other: &mut Self)
        requires
            old(self).wf(),
            old(other).wf(),
            old(self)@.len() + old(other)@.len() <= usize::MAX,
        ensures
            final(self).wf(),
            final(other).wf(),
            final(other)@.len() == 0,
            final(self)@.to_set() == old(self)@.to_set() + old(other)@.to_set(),
    {
        let ghost s0 = self@.to_set();
        let ghost o0 = other@.to_set();
        proof {
            self.lemma_wf();
            other.lemma_wf();
        }
        loop
            invariant
                self.wf(),
                other.wf(),
                self@.len() + other@.len() <= usize::MAX,
                self@.to_set() + other@.to_set() == s0 + o0,
            ensures
                self.wf(),
                other.wf(),
                other@.len() == 0,
                self@.to_set() == s0 + o0,
            decreases other@.len(),
        {
            let ghost before_self = self@;
            let ghost before_other = other@;
            match other.pop_first() {
                Some(value) => {
                    proof {
                        self.lemma_wf();
                        lemma_count_less_sorted(before_self, value);
                    }
                    self.insert(value);
                    proof {
                        lemma_insert_set(before_self, value);
                        lemma_remove_first_set(before_other);
                        assert(self@.to_set() + other@.to_set() =~= before_self.to_set()
                            + before_other.to_set());
                    }
                },
                None => {
                    proof {
                        assert(other@.to_set() =~= Set::<usize>::empty());
                        assert(self@.to_set() + other@.to_set() =~= self@.to_set());
                    }
                    break;
                },
            }
        }
    }

    /// A set holding the given values.
    pub fn from_iter(values: Vec<usize>) -> (r: Self)
        ensures
            r.wf(),
            r@.to_set() == values@.to_set(),
    {
        let mut btree = BTreeSet::new();
        let mut i: usize = 0;
        proof {
            assert(values@.take(0).to_set() =~= Set::<usize>::empty());
            assert(btree@.to_set() =~= Set::<usize>::empty());
        }
        while i < values.len()
            invariant
                btree.wf(),
                i <= values@.len(),
                btree@.to_set() == values@.take(i as int).to_set(),
                btree@.len() <= i,
            decreases values@.len() - i,
        {
            let ghost before = btree@;
            proof {
                btree.lemma_wf();
                lemma_count_less_sorted(before, values@[i as int]);
            }
            btree.insert(values[i]);
            proof {
                lemma_insert_set(before, values@[i as int]);
                assert(values@.take(i + 1) =~= values@.take(i as int).push(values@[i as int]));
                values@.take(i as int).lemma_push_to_set_commute(values@[i as int]);
            }
            i = i + 1;
        }
        proof {
            assert(values@.take(values@.len() as int) =~= values@);
        }
        btree
    }

    /// An iterator over the items in ascending order, from either end.
    pub fn iter(&self) -> (r: Iter<'_>)
        requires
            self.wf(),
        ensures
            r.wf(),
            r.remaining() == self@,
            r.btree() == self,
    {
        Iter::new(self)
    }
}

/// An iterator over the items of a [`BTreeSet`], walking the nodes from the
/// front and from the back.
pub struct Iter<'a> {
    btree: &'a BTreeSet,
    current_front_node_idx: usize,
    current_front_pos: usize,
    current_front_idx: usize,
    current_back_node_idx: usize,
    current_back_end: usize,
    current_back_idx: usize,
}

impl<'a> Iter<'a> {
    /// The set being walked.
    pub closed spec fn btree(&self) -> &'a BTreeSet {
        self.btree
    }

    /// The items not yet returned from either end, in ascending order.
    pub closed spec fn remaining(&self) -> Seq<usize> {
        self.btree@.subrange(self.current_front_idx as int, self.current_back_idx as int)
    }

    /// The two ends sit inside the node list, each counted by its overall
    /// position, the front not past the back.
    pub closed spec fn wf(&self) -> bool {
        let nodes = im_nodes(self.btree.inner);
        let counts = self.btree.index@;
        &&& self.btree.wf()
        &&& self.current_front_node_idx < nodes.len()
        &&& self.current_front_pos <= nodes[self.current_front_node_idx as int].0.len()
        &&& self.current_front_idx == prefix(counts, self.current_front_node_idx as int)
            + self.current_front_pos
        &&& self.current_back_node_idx < nodes.len()
        &&& self.current_back_end <= nodes[self.current_back_node_idx as int].0.len()
        &&& self.current_back_idx == prefix(counts, self.current_back_node_idx as int)
            + self.current_back_end
        &&& self.current_front_idx <= self.current_back_idx <= self.btree@.len()
    }

    /// An iterator over all items of `btree`.
    pub fn new(btree: &'a BTreeSet) -> (r: Self)
        requires
            btree.wf(),
        ensures
            r.wf(),
            r.remaining() == btree@,
            r.btree() == btree,
    {
        proof {
            btree.lemma_wf();
            lemma_flatten_total(im_nodes(btree.inner));
            assert(btree.index@.take(0) =~= Seq::<usize>::empty());
        }
        let n = im_len(&btree.inner);
        let back_end = im_get(&btree.inner, n - 1).unwrap().len();
        proof {
            lemma_prefix_step(btree.index@, n - 1);
            assert(btree.index@.take(n as int) =~= btree.index@);
        }
        let r = Iter {
            btree,
            current_front_node_idx: 0,
            current_front_pos: 0,
            current_front_idx: 0,
            current_back_node_idx: n - 1,
            current_back_end: back_end,
            current_back_idx: btree.len(),
        };
        proof {
            assert(btree@.subrange(0, btree@.len() as int) =~= btree@);
        }
        r
    }

    /// The smallest item not yet returned, if any.
    pub fn next(&mut self) -> (r: Option<usize>)
        requires
            old(self).wf(),
        ensures
            final(self).wf(),
            final(self).btree() == old(self).btree(),
            old(self).remaining().len() == 0 ==> r is None && final(self).remaining() == old(self).remaining(),
            old(self).remaining().len() > 0 ==> r == Some(old(self).remaining()[0]) && final(self).remaining() == old(self).remaining().drop_first(),
    {
        proof {
            self.btree.lemma_wf();
        }
        let ghost nodes = im_nodes(self.btree.inner);
        let ghost counts = self.btree.index@;
        if self.current_front_idx == self.current_back_idx {
            return None;
        }
        let node = im_get(&self.btree.inner, self.current_front_node_idx).unwrap();
        if self.current_front_pos < node.len() {
            let value = node.get(self.current_front_pos).unwrap();
            proof {
                lemma_flatten_index(
                    nodes,
                    self.current_front_node_idx as int,
                    self.current_front_pos as int,
                );
            }
            self.current_front_pos = self.current_front_pos + 1;
            self.current_front_idx = self.current_front_idx + 1;
            proof {
                assert(self.remaining() =~= old(self).remaining().drop_first());
            }
            Some(value)
        } else {
            let n = im_len(&self.btree.inner);
            proof {
                lemma_prefix_step(counts, self.current_front_node_idx as int);
                if self.current_front_node_idx + 1 == n {
                    lemma_prefix_step(counts, self.current_back_node_idx as int);
                    lemma_prefix_mono(
                        counts,
                        self.current_back_node_idx + 1,
                        self.current_front_node_idx + 1,
                    );
                    assert(false);
                }
            }
            if self.current_front_node_idx == n - 1 {
                return None;
            }
            self.current_front_node_idx = self.current_front_node_idx + 1;
            let next_node = im_get(&self.btree.inner, self.current_front_node_idx).unwrap();
            proof {
                assert(nodes[self.current_front_node_idx as int].0.len() > 0);
                lemma_flatten_index(nodes, self.current_front_node_idx as int, 0);
            }
            match next_node.get(0) {
                Some(value) => {
                    self.current_front_pos = 1;
                    self.current_front_idx = self.current_front_idx + 1;
                    proof {
                        assert(self.remaining() =~= old(self).remaining().drop_first());
                    }
                    Some(value)
                },
                None => None,
            }
        }
    }

    /// The largest item not yet returned, if any.
    pub fn next_back(&mut self) -> (r: Option<usize>)
        requires
            old(self).wf(),
        ensures
            final(self).wf(),
            final(self).btree() == old(self).btree(),
            old(self).remaining().len() == 0 ==> r is None && final(self).remaining() == old(self).remaining(),
            old(self).remaining().len() > 0 ==> r == Some(old(self).remaining().last()) && final(self).remaining() == old(self).remaining().drop_last(),
    {
        proof {
            self.btree.lemma_wf();
        }
        let ghost nodes = im_nodes(self.btree.inner);
        let ghost counts = self.btree.index@;
        if self.current_front_idx == self.current_back_idx {
            return None;
        }
        if self.current_back_end == 0 {
            proof {
                if self.current_back_node_idx == 0 {
                    assert(counts.take(0) =~= Seq::<usize>::empty());
                    assert(false);
                }
            }
            if self.current_back_node_idx == 0 {
                return None;
            }
            self.current_back_node_idx = self.current_back_node_idx - 1;
            self.current_back_end = im_get(&self.btree.inner, self.current_back_node_idx).unwrap().len();
            proof {
                lemma_prefix_step(counts, self.current_back_node_idx as int);
                assert(nodes[self.current_back_node_idx as int].0.len() > 0);
            }
        }
        let node = im_get(&self.btree.inner, self.current_back_node_idx).unwrap();
        self.current_back_end = self.current_back_end - 1;
        self.current_back_idx = self.current_back_idx - 1;
        proof {
            lemma_flatten_index(
                nodes,
                self.current_back_node_idx as int,
                self.current_back_end as int,
            );
            assert(self.remaining() =~= old(self).remaining().drop_last());
        }
        node.get(self.current_back_end)
    }
}

impl BTreeSet {
}

impl Clone for BTreeSet {
    /// A set with the same items, sharing the node list.
    fn clone(&self) -> (r: Self)
        ensures
            r@ == self@,
            self.wf() ==> r.wf(),
    {
        BTreeSet {
            inner: im_clone(&self.inner),
            index: Self::count_nodes(&self.inner),
            node_capacity: self.node_capacity,
            len: self.len,
        }
    }
}

impl Default for BTreeSet {
    /// An empty set.
    fn default() -> (r: Self)
        ensures
            r.wf(),
            r@ == Seq::<usize>::empty(),
    {
        Self::single_empty()
    }
}
/// The items after inserting `value` into the ascending items `s`: `s`
/// itself when it holds `value`, else `s` with `value` at its place.
pub open spec fn inserted(s: Seq<usize>, value: usize) -> Seq<usize> {
    if s.contains(value) {
        s
    } else {
        s.insert(count_less(s, value) as int, value)
    }
}

/// The items after removing `value` from the ascending items `s`.
pub open spec fn removed(s: Seq<usize>, value: usize) -> Seq<usize> {
    if s.contains(value) {
        s.remove(count_less(s, value) as int)
    } else {
        s
    }
}

/// The items of a set always ascend strictly, so its iterators produce
/// them in order and without repeats.
pub proof fn law_items_ascend(set: &BTreeSet)
    requires
        set.wf(),
    ensures
        sorted_strict(set@),
{
    set.lemma_wf();
}

/// After an insertion the set holds the value and every item it held
/// before, and nothing else; it grows by one exactly when the value was new.
pub proof fn law_insert_then_contains(before: Seq<usize>, value: usize)
    requires
        sorted_strict(before),
    ensures
        sorted_strict(inserted(before, value)),
        inserted(before, value).contains(value),
        forall|x: usize| #[trigger] inserted(before, value).contains(x) <==> (before.contains(x) || x == value),
        inserted(before, value).len() == before.len() + (if before.contains(value) { 0int } else { 1int }),
{
    let after = inserted(before, value);
    if !before.contains(value) {
        lemma_count_less_sorted(before, value);
        let k = count_less(before, value) as int;
        assert forall|i: int| k <= i < before.len() implies before[i] > value by {
            if before[i] == value {
                assert(before.contains(value));
            }
        }
        lemma_sorted_insert(before, value, k);
        assert(after[k] == value);
        assert forall|x: usize| #[trigger] after.contains(x) <==> (before.contains(x) || x == value) by {
            if after.contains(x) {
                let j = choose|j: int| 0 <= j < after.len() && after[j] == x;
                if j < k {
                    assert(before[j] == x);
                } else if j > k {
                    assert(before[j - 1] == x);
                }
            }
            if before.contains(x) {
                let j = choose|j: int| 0 <= j < before.len() && before[j] == x;
                if j < k {
                    assert(after[j] == x);
                } else {
                    assert(after[j + 1] == x);
                }
            }
        }
    }
}

/// The items of a set made empty and then given each of `xs` in turn by
/// `insert`.
pub open spec fn inserted_all(xs: Seq<usize>) -> Seq<usize>
    decreases xs.len(),
{
    if xs.len() == 0 {
        Seq::empty()
    } else {
        inserted(inserted_all(xs.drop_last()), xs.last())
    }
}

/// Inserting any values, in any order and with repeats, into an empty set
/// leaves exactly those values, ascending and without repeats: the values
/// sorted with repeats dropped.
pub proof fn law_inserts_sort_and_dedup(xs: Seq<usize>)
    ensures
        sorted_strict(inserted_all(xs)),
        forall|x: usize| #[trigger] inserted_all(xs).contains(x) <==> xs.contains(x),
    decreases xs.len(),
{
    if xs.len() > 0 {
        let front = xs.drop_last();
        law_inserts_sort_and_dedup(front);
        law_insert_then_contains(inserted_all(front), xs.last());
        assert forall|x: usize| #[trigger] inserted_all(xs).contains(x) <==> xs.contains(x) by {
            if front.contains(x) {
                let j = choose|j: int| 0 <= j < front.len() && front[j] == x;
                assert(xs[j] == x);
            }
            if xs.contains(x) {
                let j = choose|j: int| 0 <= j < xs.len() && xs[j] == x;
                if j < xs.len() - 1 {
                    assert(front[j] == x);
                }
            }
        }
    }
}

/// After a removal the set no longer holds the value and holds every
/// other item it held before; it shrinks by one exactly when the value was
/// present.
pub proof fn law_remove_then_absent(before: Seq<usize>, value: usize)
    requires
        sorted_strict(before),
    ensures
        sorted_strict(removed(before, value)),
        !removed(before, value).contains(value),
        forall|x: usize| #[trigger] removed(before, value).contains(x) <==> (before.contains(x) && x != value),
        removed(before, value).len() == before.len() - (if before.contains(value) { 1int } else { 0int }),
{
    let after = removed(before, value);
    lemma_count_less_sorted(before, value);
    if before.contains(value) {
        let k = count_less(before, value) as int;
        let w = choose|w: int| 0 <= w < before.len() && before[w] == value;
        assert(k == w) by {
            if w < k {
                assert(before[w] < value);
            } else if w > k {
                assert(before[k] >= value);
                assert(before[k] < before[w]);
            }
        }
        lemma_sorted_remove(before, k);
        assert forall|x: usize| #[trigger] after.contains(x) <==> (before.contains(x) && x != value) by {
            if after.contains(x) {
                let j = choose|j: int| 0 <= j < after.len() && after[j] == x;
                if j < k {
                    assert(before[j] == x);
                    assert(before[j] < before[k]);
                } else {
                    assert(before[j + 1] == x);
                    assert(before[k] < before[j + 1]);
                }
            }
            if before.contains(x) && x != value {
                let j = choose|j: int| 0 <= j < before.len() && before[j] == x;
                if j < k {
                    assert(after[j] == x);
                } else if j > k {
                    assert(after[j - 1] == x);
                }
            }
        }
    }
}

/// The first item of a non-empty set is its minimum, and the last its
/// maximum.
pub proof fn law_first_min_last_max(s: Seq<usize>)
    requires
        sorted_strict(s),
        s.len() > 0,
    ensures
        forall|i: int| 0 <= i < s.len() ==> s[0] <= #[trigger] s[i] && s[i] <= s.last(),
{
}

/// Splitting at `value` parts the items into those below it and those not
/// below it, which together are the items as they were.
pub proof fn law_split_partitions(s: Seq<usize>, value: usize)
    requires
        sorted_strict(s),
    ensures
        forall|i: int| 0 <= i < s.take(count_less(s, value) as int).len() ==> #[trigger] s.take(count_less(s, value) as int)[i] < value,
        forall|i: int| 0 <= i < s.skip(count_less(s, value) as int).len() ==> #[trigger] s.skip(count_less(s, value) as int)[i] >= value,
        s.take(count_less(s, value) as int) + s.skip(count_less(s, value) as int) == s,
{
    lemma_count_less_sorted(s, value);
    let k = count_less(s, value) as int;
    assert(s.take(k) + s.skip(k) =~= s);
}

} // verus!
