use crate::node::{max_below, partition_boundary, Node, NodeView};
use core::cmp::Ordering;
use vstd::prelude::*;

verus! {

#[verifier::external_type_specification]
#[verifier::external_body]
#[verifier::reject_recursive_types(A)]
pub struct ExImVector<A>(im::Vector<A>);

/// The nodes that a persistent vector holds, in order, each by its view.
pub uninterp spec fn im_nodes(v: im::Vector<Node>) -> Seq<NodeView>;

/// The order in which the search of the node list sees a node relative to
/// `value`: `Less` for a node whose maximum is below it, `Greater` otherwise.
pub fn node_order(node: &Node, value: usize) -> (r: Ordering)
    ensures
        r == (if max_below(node@, value) {
            Ordering::Less
        } else {
            Ordering::Greater
        }),
{
    match node.max() {
        Some(m) => if m < value {
            Ordering::Less
        } else {
            Ordering::Greater
        },
        None => Ordering::Greater,
    }
}

/// `im::Vector::unit`: a vector holding the one node.
#[verifier::external_body]
pub(crate) fn im_unit(node: Node) -> (r: im::Vector<Node>)
    ensures
        im_nodes(r) == seq![node@],
{
    im::Vector::unit(node)
}

/// `im::Vector::new`: an empty vector.
#[verifier::external_body]
pub(crate) fn im_new() -> (r: im::Vector<Node>)
    ensures
        im_nodes(r) == Seq::<NodeView>::empty(),
{
    im::Vector::new()
}

/// `im::Vector::clone`: a vector holding the same nodes.
#[verifier::external_body]
pub(crate) fn im_clone(v: &im::Vector<Node>) -> (r: im::Vector<Node>)
    ensures
        im_nodes(r) == im_nodes(*v),
{
    v.clone()
}

/// `im::Vector::len`: the number of nodes.
#[verifier::external_body]
pub(crate) fn im_len(v: &im::Vector<Node>) -> (r: usize)
    ensures
        r == im_nodes(*v).len(),
{
    v.len()
}

/// `im::Vector::get`: the node at `index`, or `None` past the end.
#[verifier::external_body]
pub(crate) fn im_get(v: &im::Vector<Node>, index: usize) -> (r: Option<&Node>)
    ensures
        index < im_nodes(*v).len() ==> r is Some && r->0@ == im_nodes(*v)[index as int],
        index >= im_nodes(*v).len() ==> r is None,
{
    v.get(index)
}

/// `im::Vector::set`: replaces the node at `index`, returning the old one.
/// It panics past the end.
#[verifier::external_body]
pub(crate) fn im_set(v: &mut im::Vector<Node>, index: usize, node: Node) -> (r: Node)
    requires
        index < im_nodes(*old(v)).len(),
    ensures
        im_nodes(*final(v)) == im_nodes(*old(v)).update(index as int, node@),
        r@ == im_nodes(*old(v))[index as int],
{
    v.set(index, node)
}

/// `im::Vector::insert`: inserts a node before `index`; it panics past the
/// end.
#[verifier::external_body]
pub(crate) fn im_insert(v: &mut im::Vector<Node>, index: usize, node: Node)
    requires
        index <= im_nodes(*old(v)).len(),
    ensures
        im_nodes(*final(v)) == im_nodes(*old(v)).insert(index as int, node@),
{
    v.insert(index, node)
}

/// `im::Vector::remove`: removes and returns the node at `index`; it panics
/// past the end.
#[verifier::external_body]
pub(crate) fn im_remove(v: &mut im::Vector<Node>, index: usize) -> (r: Node)
    requires
        index < im_nodes(*old(v)).len(),
    ensures
        im_nodes(*final(v)) == im_nodes(*old(v)).remove(index as int),
        r@ == im_nodes(*old(v))[index as int],
{
    v.remove(index)
}

/// `im::Vector::push_front`: adds a node at the front.
#[verifier::external_body]
pub(crate) fn im_push_front(v: &mut im::Vector<Node>, node: Node)
    ensures
        im_nodes(*final(v)) == seq![node@] + im_nodes(*old(v)),
{
    v.push_front(node)
}

/// `im::Vector::pop_back`: removes and returns the last node, if any.
#[verifier::external_body]
pub(crate) fn im_pop_back(v: &mut im::Vector<Node>) -> (r: Option<Node>)
    ensures
        im_nodes(*old(v)).len() == 0 ==> r is None && im_nodes(*final(v)) == im_nodes(*old(v)),
        im_nodes(*old(v)).len() > 0 ==> r is Some && r->0@ == im_nodes(*old(v)).last()
            && im_nodes(*final(v)) == im_nodes(*old(v)).drop_last(),
{
    v.pop_back()
}

/// `im::Vector::binary_search_by` with `node_order` as the comparison, taking
/// the position out of either result.
///
/// The comparison never answers `Equal`, so the search ends in a position
/// `r` between a node whose maximum is below `value` (or the start) and a
/// node whose maximum is not (or the end); which such position it ends in is
/// left unsaid where more than one exists.
#[verifier::external_body]
pub(crate) fn im_partition_by_max(v: &im::Vector<Node>, value: usize) -> (r: usize)
    ensures
        partition_boundary(im_nodes(*v), r, value),
{
    match v.binary_search_by(|x| node_order(x, value)) {
        Ok(i) => i,
        Err(i) => i,
    }
}

} // verus!
