//! Sorting a tree: at every level the largest children first.

use vstd::prelude::*;
use crate::node::{childless, flat, flat_all, Node, NodeView};
use vstd::seq_lib::lemma_multiset_commutative;

verus! {

/// Whether `places` names each of the places `0` to `count - 1` once.
pub open spec fn is_permutation(places: Seq<int>, count: nat) -> bool {
    &&& places.len() == count
    &&& forall|i: int| 0 <= i < count ==> 0 <= #[trigger] places[i] < count
    &&& forall|i: int, j: int| 0 <= i < j < count ==> #[trigger] places[i] != #[trigger] places[j]
}

/// Whether `after` holds the items of `before`, the item at place `i` of `after` being the
/// one that stood at `places[i]`.
pub open spec fn rearranged<T>(before: Seq<T>, after: Seq<T>, places: Seq<int>) -> bool {
    &&& after.len() == before.len()
    &&& is_permutation(places, before.len())
    &&& forall|i: int| 0 <= i < after.len() ==> #[trigger] after[i] == before[places[i]]
}

/// Whether the sizes of `nodes` never go up from one to the next.
pub open spec fn sizes_descend(nodes: Seq<NodeView>) -> bool {
    forall|i: int, j: int|
        0 <= i < j < nodes.len() ==> (#[trigger] nodes[i]).size >= (#[trigger] nodes[j]).size
}

/// Whether a tree is sorted: at every level the children stand in descending order of size.
pub open spec fn descending(node: NodeView) -> bool
    decreases node,
{
    &&& sizes_descend(node.children)
    &&& forall|i: int|
        0 <= i < node.children.len() ==> descending(#[trigger] node.children[i])
}

/// Whether `after` is the tree `before` with children in another order: the same path, size
/// and kind, and as children the children of `before`, each once and each itself with its
/// children in another order.
pub open spec fn reordered(before: NodeView, after: NodeView) -> bool
    decreases before,
{
    &&& after.path == before.path
    &&& after.size == before.size
    &&& after.is_dir == before.is_dir
    &&& after.children.len() == before.children.len()
    &&& exists|places: Seq<int>|
        {
            &&& is_permutation(places, before.children.len())
            &&& forall|i: int|
                0 <= i < before.children.len() && 0 <= places[i] < before.children.len()
                    ==> reordered(before.children[places[i]], #[trigger] after.children[i])
        }
}

/// std's `sort_unstable_by_key` on the nodes, with their size as the key. The contract says
/// what std documents: the vector holds the same nodes as before, each once, and their sizes
/// never go down from one to the next. Which of two nodes of one size comes first is left
/// open.
#[verifier::external_body]
fn sort_by_size(nodes: &mut Vec<Node>)
    ensures
        exists|places: Seq<int>| rearranged(old(nodes)@, final(nodes)@, places),
        forall|i: int, j: int|
            0 <= i < j < final(nodes)@.len() ==> (#[trigger] final(nodes)@[i]).size <= (
            #[trigger] final(nodes)@[j]).size,
{
    nodes.sort_unstable_by_key(|node| node.size);
}

/// Puts the nodes in the opposite order.
fn reverse(nodes: &mut Vec<Node>)
    ensures
        final(nodes)@.len() == old(nodes)@.len(),
        forall|i: int|
            0 <= i < final(nodes)@.len() ==> #[trigger] final(nodes)@[i] == old(nodes)@[old(
                nodes,
            )@.len() - 1 - i],
{
    let mut turned: Vec<Node> = Vec::new();
    let count = nodes.len();
    while nodes.len() > 0
        invariant
            count == old(nodes)@.len(),
            nodes@.len() + turned@.len() == count,
            nodes@ == old(nodes)@.take(nodes@.len() as int),
            forall|i: int|
                0 <= i < turned@.len() ==> #[trigger] turned@[i] == old(nodes)@[count - 1 - i],
        decreases nodes@.len(),
    {
        let node = nodes.pop().unwrap();
        turned.push(node);
    }
    *nodes = turned;
}

impl Node {
    /// Sorts the tree: at every level the children are put in descending order of size.
    /// Nothing else changes; children of one size may come in either order.
    pub fn sort(&mut self)
        ensures
            reordered(old(self)@, final(self)@),
            descending(final(self)@),
        decreases *old(self),
    {
        let ghost before = old(self).children@;
        sort_by_size(&mut self.children);
        let ghost ascending = self.children@;
        let ghost up = choose|places: Seq<int>| rearranged(before, ascending, places);
        reverse(&mut self.children);
        let ghost sorted = self.children@;
        let count = self.children.len();
        let ghost places = Seq::new(count as nat, |i: int| up[count - 1 - i]);
        assert(rearranged(before, sorted, places)) by {
            assert forall|i: int| 0 <= i < count implies #[trigger] sorted[i] == before[places[i]]
            by {
                assert(sorted[i] == ascending[count - 1 - i]);
            }
        }
        let mut i: usize = 0;
        while i < count
            invariant
                i <= count,
                count == sorted.len(),
                count == self.children@.len(),
                before == old(self).children@,
                self.path == old(self).path,
                self.size == old(self).size,
                self.is_dir == old(self).is_dir,
                rearranged(before, sorted, places),
                forall|a: int, b: int|
                    0 <= a < b < count ==> (#[trigger] sorted[a]).size >= (
                    #[trigger] sorted[b]).size,
                forall|k: int|
                    0 <= k < i ==> reordered(sorted[k]@, (#[trigger] self.children@[k])@)
                        && descending(self.children@[k]@),
                forall|k: int| i <= k < count ==> #[trigger] self.children@[k] == sorted[k],
            decreases count - i,
        {
            assert(self.children@[i as int] == old(self).children[places[i as int]]);
            self.children[i].sort();
            i += 1;
        }
        proof {
            let now = self@;
            let then = old(self)@;
            assert forall|k: int|
                0 <= k < then.children.len() && 0 <= places[k] < then.children.len()
                    implies reordered(then.children[places[k]], #[trigger] now.children[k]) by {
                assert(reordered(sorted[k]@, self.children@[k]@));
                assert(sorted[k] == before[places[k]]);
            }
            assert(sizes_descend(now.children)) by {
                assert forall|a: int, b: int| 0 <= a < b < now.children.len() implies (
                #[trigger] now.children[a]).size >= (#[trigger] now.children[b]).size by {
                    assert(reordered(sorted[a]@, self.children@[a]@));
                    assert(reordered(sorted[b]@, self.children@[b]@));
                }
            }
            assert forall|k: int| 0 <= k < now.children.len() implies descending(
                #[trigger] now.children[k],
            ) by {
                assert(descending(self.children@[k]@));
            }
        }
    }
}

/// The entries of several trees, taken together, are those of one of the trees and those of
/// the others.
proof fn lemma_flat_all_without(nodes: Seq<NodeView>, j: int)
    requires
        0 <= j < nodes.len(),
    ensures
        flat_all(nodes).to_multiset() == flat_all(nodes.remove(j)).to_multiset().add(
            flat(nodes[j]).to_multiset(),
        ),
    decreases nodes.len(),
{
    broadcast use vstd::multiset::group_multiset_axioms;

    let front = nodes.drop_last();
    let last = nodes.last();
    lemma_multiset_commutative(flat_all(front), flat(last));
    if j == nodes.len() - 1 {
        assert(nodes.remove(j) =~= front);
    } else {
        let others = nodes.remove(j);
        assert(others.drop_last() =~= front.remove(j));
        assert(others.last() == last);
        lemma_flat_all_without(front, j);
        lemma_multiset_commutative(flat_all(front.remove(j)), flat(last));
        assert(flat_all(nodes).to_multiset() =~= flat_all(others).to_multiset().add(
            flat(nodes[j]).to_multiset(),
        ));
    }
}

/// Trees that hold the same entries one for one, in whatever order the trees stand, hold the
/// same entries taken together.
proof fn lemma_flat_all_rearranged(before: Seq<NodeView>, after: Seq<NodeView>, places: Seq<int>)
    requires
        after.len() == before.len(),
        is_permutation(places, before.len()),
        forall|i: int|
            0 <= i < after.len() ==> flat(#[trigger] after[i]).to_multiset() == flat(
                before[places[i]],
            ).to_multiset(),
    ensures
        flat_all(after).to_multiset() == flat_all(before).to_multiset(),
    decreases after.len(),
{
    broadcast use vstd::multiset::group_multiset_axioms;

    if after.len() > 0 {
        let count = after.len() as int;
        let j = places[count - 1];
        let fewer_after = after.drop_last();
        let fewer_before = before.remove(j);
        let fewer_places = Seq::new(
            (count - 1) as nat,
            |i: int|
                if places[i] < j {
                    places[i]
                } else {
                    places[i] - 1
                },
        );
        assert forall|i: int| 0 <= i < count - 1 implies 0 <= #[trigger] fewer_places[i] < count
            - 1 && fewer_before[fewer_places[i]] == before[places[i]] by {
            assert(places[i] != places[count - 1]);
        }
        assert forall|a: int, b: int| 0 <= a < b < count - 1 implies #[trigger] fewer_places[a]
            != #[trigger] fewer_places[b] by {
            assert(places[a] != places[b]);
            assert(places[a] != places[count - 1]);
            assert(places[b] != places[count - 1]);
        }
        assert forall|i: int| 0 <= i < fewer_after.len() implies flat(
            #[trigger] fewer_after[i],
        ).to_multiset() == flat(fewer_before[fewer_places[i]]).to_multiset() by {
            assert(fewer_after[i] == after[i]);
            assert(fewer_before[fewer_places[i]] == before[places[i]]);
        }
        lemma_flat_all_rearranged(fewer_before, fewer_after, fewer_places);
        lemma_flat_all_without(before, j);
        lemma_multiset_commutative(flat_all(fewer_after), flat(after.last()));
        assert(flat(after[count - 1]).to_multiset() == flat(before[j]).to_multiset());
        assert(flat_all(after).to_multiset() =~= flat_all(before).to_multiset());
    } else {
        assert(before =~= after);
    }
}

/// A tree whose children were put in another order, at whatever levels, holds the entries
/// that it held before: each path with its size and kind as often as before.
pub proof fn lemma_reordered_same_entries(before: NodeView, after: NodeView)
    requires
        reordered(before, after),
    ensures
        flat(after).to_multiset() == flat(before).to_multiset(),
    decreases before,
{
    broadcast use vstd::multiset::group_multiset_axioms;

    let count = before.children.len();
    let places = choose|places: Seq<int>|
        {
            &&& is_permutation(places, count)
            &&& forall|i: int|
                0 <= i < count && 0 <= places[i] < count ==> reordered(
                    before.children[places[i]],
                    #[trigger] after.children[i],
                )
        };
    assert forall|i: int| 0 <= i < count implies flat(#[trigger] after.children[i]).to_multiset()
        == flat(before.children[places[i]]).to_multiset() by {
        lemma_reordered_same_entries(before.children[places[i]], after.children[i]);
    }
    lemma_flat_all_rearranged(before.children, after.children, places);
    assert(childless(after) == childless(before));
    lemma_multiset_commutative(seq![childless(before)], flat_all(before.children));
    lemma_multiset_commutative(seq![childless(after)], flat_all(after.children));
}

} // verus!
