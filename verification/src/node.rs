//! The tree of entries that a walk builds: files and directories with their sizes.

use vstd::prelude::*;

verus! {

/// A file or a directory. The `size` of a directory counts everything below it, also what was
/// walked but is not kept among its `children`.
#[derive(Debug, PartialEq, Eq)]
pub struct Node {
    pub path: String,
    pub size: u64,
    pub children: Vec<Node>,
    pub is_dir: bool,
}

/// What a [`Node`] stands for: its path as text, its size, and its children in order.
pub struct NodeView {
    pub path: Seq<char>,
    pub size: u64,
    pub children: Seq<NodeView>,
    pub is_dir: bool,
}

/// The views of a run of nodes, in order.
pub open spec fn node_views(nodes: Seq<Node>) -> Seq<NodeView> {
    Seq::new(nodes.len(), |i: int| nodes[i]@)
}

/// `node` without its children.
pub open spec fn childless(node: NodeView) -> NodeView {
    NodeView { path: node.path, size: node.size, children: Seq::empty(), is_dir: node.is_dir }
}

/// The entries of a tree in pre-order, each without its children: the node itself, then the
/// entries of its first child's tree, then those of the second, and so on.
pub open spec fn flat(node: NodeView) -> Seq<NodeView>
    decreases node,
{
    seq![childless(node)] + flat_all(node.children)
}

/// The entries of several trees, tree after tree.
pub open spec fn flat_all(nodes: Seq<NodeView>) -> Seq<NodeView>
    decreases nodes,
{
    if nodes.len() == 0 {
        Seq::empty()
    } else {
        flat_all(nodes.drop_last()) + flat(nodes.last())
    }
}

impl Node {
    /// The view, written out for the recursion through `children`.
    pub open spec fn model(self) -> NodeView
        decreases self,
    {
        NodeView {
            path: self.path@,
            size: self.size,
            children: Seq::new(
                self.children@.len(),
                |i: int|
                    if 0 <= i < self.children@.len() {
                        self.children[i].model()
                    } else {
                        arbitrary()
                    },
            ),
            is_dir: self.is_dir,
        }
    }

    /// The children of a node's view are the views of its children.
    pub proof fn lemma_children_views(self)
        ensures
            self@.children == node_views(self.children@),
    {
        assert(self@.children =~= node_views(self.children@));
    }

    /// A node from its parts.
    pub fn new(path: String, size: u64, children: Vec<Node>, is_dir: bool) -> (node: Node)
        ensures
            node@ == (NodeView { path: path@, size, children: node_views(children@), is_dir }),
    {
        let node = Node { path, size, children, is_dir };
        proof {
            node.lemma_children_views();
        }
        node
    }

    /// A copy of this node without its children.
    pub fn clone_childless(&self) -> (copy: Node)
        ensures
            copy@ == childless(self@),
    {
        let copy = Node {
            path: self.path.clone(),
            size: self.size,
            children: Vec::new(),
            is_dir: self.is_dir,
        };
        assert(copy@.children =~= Seq::empty());
        copy
    }

    /// Turns the tree into the list of its entries, parents before their children, each entry
    /// without children of its own.
    pub fn flatten(&self) -> (nodes: Vec<Node>)
        ensures
            node_views(nodes@) == flat(self@),
        decreases self,
    {
        let mut nodes: Vec<Node> = Vec::new();
        nodes.push(self.clone_childless());
        assert(node_views(nodes@) =~= seq![childless(self@)]);
        let count = self.children.len();
        let mut i: usize = 0;
        while i < count
            invariant
                i <= count,
                count == self.children@.len(),
                node_views(nodes@) == seq![childless(self@)] + flat_all(
                    self@.children.take(i as int),
                ),
            decreases count - i,
        {
            let ghost before = nodes@;
            let mut below = self.children[i].flatten();
            nodes.append(&mut below);
            proof {
                let upto = self@.children.take(i as int + 1);
                assert(upto.drop_last() =~= self@.children.take(i as int));
                assert(upto.last() == self.children@[i as int]@);
                assert(node_views(nodes@) =~= node_views(before) + flat(self.children@[i as int]@));
            }
            i += 1;
        }
        assert(self@.children.take(count as int) =~= self@.children);
        nodes
    }
}

impl View for Node {
    type V = NodeView;

    open spec fn view(&self) -> NodeView {
        self.model()
    }
}

impl Clone for Node {
    /// A copy of the whole tree.
    fn clone(&self) -> (copy: Node)
        ensures
            copy@ == self@,
        decreases self,
    {
        let mut children: Vec<Node> = Vec::new();
        let count = self.children.len();
        let mut i: usize = 0;
        while i < count
            invariant
                i <= count,
                count == self.children@.len(),
                children@.len() == i,
                forall|k: int| 0 <= k < i ==> (#[trigger] children@[k])@ == self.children@[k]@,
            decreases count - i,
        {
            children.push(self.children[i].clone());
            i += 1;
        }
        let copy = Node { path: self.path.clone(), size: self.size, children, is_dir: self.is_dir };
        assert(copy@.children =~= self@.children);
        copy
    }
}

/// The number of entries in a tree: the node and all that stands below it.
pub open spec fn count(node: NodeView) -> nat
    decreases node,
{
    1 + count_all(node.children)
}

/// The number of entries in several trees.
pub open spec fn count_all(nodes: Seq<NodeView>) -> nat
    decreases nodes,
{
    if nodes.len() == 0 {
        0
    } else {
        count_all(nodes.drop_last()) + count(nodes.last())
    }
}

/// The list of a tree has one entry for each node of the tree: one for the node itself, and
/// for each child as many as the list of that child has.
pub proof fn lemma_flat_len(node: NodeView)
    ensures
        flat(node).len() == count(node),
        flat_all(node.children).len() == count_all(node.children),
        flat(node).len() == 1 + flat_all(node.children).len(),
    decreases node,
{
    lemma_flat_all_len(node.children);
}

/// The list of several trees has as many entries as the lists of the trees together.
pub proof fn lemma_flat_all_len(nodes: Seq<NodeView>)
    ensures
        flat_all(nodes).len() == count_all(nodes),
    decreases nodes,
{
    if nodes.len() > 0 {
        lemma_flat_all_len(nodes.drop_last());
        lemma_flat_len(nodes.last());
    }
}

/// The list of a tree is in pre-order. It starts with the node itself; behind it stand the
/// lists of the children, whole and in the order of the children: the list of child `i`
/// starts where the lists of the children before it end.
pub proof fn lemma_flat_in_order(node: NodeView, i: int)
    requires
        0 <= i < node.children.len(),
    ensures
        flat(node)[0] == childless(node),
        1 + count_all(node.children.take(i)) + count(node.children[i]) <= flat(node).len(),
        flat(node).subrange(
            1 + count_all(node.children.take(i)) as int,
            1 + count_all(node.children.take(i)) + count(node.children[i]) as int,
        ) == flat(node.children[i]),
{
    lemma_flat_all_in_order(node.children, i);
    lemma_flat_all_len(node.children.take(i));
    lemma_flat_len(node.children[i]);
    let from = count_all(node.children.take(i)) as int;
    let to = from + count(node.children[i]);
    assert(flat(node).subrange(1 + from, 1 + to) =~= flat_all(node.children).subrange(from, to));
}

/// The lists of several trees stand one behind the other, in the order of the trees.
pub proof fn lemma_flat_all_in_order(nodes: Seq<NodeView>, i: int)
    requires
        0 <= i < nodes.len(),
    ensures
        flat_all(nodes.take(i)).len() + flat(nodes[i]).len() <= flat_all(nodes).len(),
        flat_all(nodes).subrange(
            flat_all(nodes.take(i)).len() as int,
            flat_all(nodes.take(i)).len() + flat(nodes[i]).len() as int,
        ) == flat(nodes[i]),
    decreases nodes.len(),
{
    let front = nodes.drop_last();
    if i == nodes.len() - 1 {
        assert(nodes.take(i) =~= front);
        assert(flat_all(nodes).subrange(
            flat_all(front).len() as int,
            flat_all(front).len() + flat(nodes[i]).len() as int,
        ) =~= flat(nodes[i]));
    } else {
        lemma_flat_all_in_order(front, i);
        assert(front.take(i) =~= nodes.take(i));
        let from = flat_all(nodes.take(i)).len() as int;
        let to = from + flat(nodes[i]).len();
        assert(flat_all(nodes).subrange(from, to) =~= flat_all(front).subrange(from, to));
    }
}

/// No entry of the list of a tree has children.
pub proof fn lemma_flat_childless(node: NodeView, k: int)
    requires
        0 <= k < flat(node).len(),
    ensures
        flat(node)[k].children.len() == 0,
    decreases node,
{
    if k > 0 {
        lemma_flat_all_childless(node.children, k - 1);
    }
}

/// No entry of the lists of several trees has children.
pub proof fn lemma_flat_all_childless(nodes: Seq<NodeView>, k: int)
    requires
        0 <= k < flat_all(nodes).len(),
    ensures
        flat_all(nodes)[k].children.len() == 0,
    decreases nodes,
{
    let front = flat_all(nodes.drop_last());
    if k < front.len() {
        lemma_flat_all_childless(nodes.drop_last(), k);
    } else {
        lemma_flat_childless(nodes.last(), k - front.len());
    }
}

/// Each entry of the lists of several trees is an entry of the list of one of the trees.
/// Returns which tree, and which entry of its list.
pub proof fn lemma_flat_all_entry(nodes: Seq<NodeView>, k: int) -> (at: (int, int))
    requires
        0 <= k < flat_all(nodes).len(),
    ensures
        0 <= at.0 < nodes.len(),
        0 <= at.1 < flat(nodes[at.0]).len(),
        flat_all(nodes)[k] == flat(nodes[at.0])[at.1],
    decreases nodes.len(),
{
    let front = flat_all(nodes.drop_last());
    if k < front.len() {
        lemma_flat_all_entry(nodes.drop_last(), k)
    } else {
        (nodes.len() - 1, k - front.len())
    }
}

} // verus!
