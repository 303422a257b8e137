//! Gathering what a walk found in a directory into the node for that directory.

use vstd::prelude::*;
use crate::node::{Node, NodeView};

verus! {

/// What kind of thing an entry of a directory is.
#[derive(Debug, Clone, Copy, PartialEq, Eq, Structural)]
pub enum Kind {
    Directory,
    File,
    /// Anything else, such as a link that is not followed.
    Other,
}

/// What a walk does with an entry of a directory.
#[derive(Debug, Clone, Copy, PartialEq, Eq, Structural)]
pub enum Action {
    /// Walk it as a directory, with one level of depth less.
    Walk,
    /// Take its length as a file.
    Measure,
    /// Leave it out: it adds nothing to the size and is no child.
    Pass,
}

/// What a walk does with an entry of the kind that the system gave for it, `None` standing
/// for an entry whose kind could not be read. What cannot be read is left out, and the walk
/// goes on.
pub fn action_for(kind: Option<Kind>) -> (action: Action)
    ensures
        action == match kind {
            Some(Kind::Directory) => Action::Walk,
            Some(Kind::File) => Action::Measure,
            Some(Kind::Other) => Action::Pass,
            None => Action::Pass,
        },
{
    match kind {
        Some(Kind::Directory) => Action::Walk,
        Some(Kind::File) => Action::Measure,
        Some(Kind::Other) => Action::Pass,
        None => Action::Pass,
    }
}

/// The length that counts for an entry, given the length that the system gave for it, `None`
/// standing for a length that could not be read: such an entry counts as empty.
pub fn counted_length(length: Option<u64>) -> (bytes: u64)
    ensures
        bytes == match length {
            Some(length) => length,
            None => 0,
        },
{
    match length {
        Some(length) => length,
        None => 0,
    }
}

/// What a walk found for one entry of a directory. Entries that were left out are not found.
pub enum Found {
    /// A directory, with the tree that the walk of it gave.
    Directory(Node),
    /// A file, with its length in bytes.
    File { path: String, size: u64 },
}

/// The node for what was found.
pub open spec fn found_node(found: Found) -> NodeView {
    match found {
        Found::Directory(tree) => tree@,
        Found::File { path, size } => NodeView {
            path: path@,
            size,
            children: Seq::empty(),
            is_dir: false,
        },
    }
}

/// The nodes for what was found, in order.
pub open spec fn found_nodes(found: Seq<Found>) -> Seq<NodeView> {
    Seq::new(found.len(), |i: int| found_node(found[i]))
}

/// The bytes of all that was found.
pub open spec fn found_size(found: Seq<Found>) -> nat
    decreases found.len(),
{
    if found.len() == 0 {
        0
    } else {
        found_size(found.drop_last()) + found_node(found.last()).size as nat
    }
}

/// Whether a walk with this depth left keeps what it finds as children. What it does not keep
/// it counts all the same.
pub open spec fn keeps_children(depth: i32) -> bool {
    depth > 0
}

/// The depth left for the walk of a directory that was found: one less, and none where none
/// is left.
pub fn depth_below(depth: i32) -> (below: i32)
    ensures
        below == if depth > 0 {
            depth - 1
        } else {
            0
        },
        keeps_children(below) == (depth > 1),
{
    if depth > 0 {
        depth - 1
    } else {
        0
    }
}

/// The node for a directory (or for a file that was walked itself) from what the walk found
/// in it. Its size is its own length and the sizes of all that was found; its children are
/// what was found, in that order, if the walk had any depth left, and none if it had not.
/// `None` if the size is too large for 64 bits.
pub fn gather(path: String, is_dir: bool, own_size: u64, depth: i32, found: Vec<Found>) -> (node:
    Option<Node>)
    ensures
        match node {
            Some(node) => {
                &&& own_size + found_size(found@) <= u64::MAX
                &&& node@ == NodeView {
                    path: path@,
                    size: (own_size + found_size(found@)) as u64,
                    children: if keeps_children(depth) {
                        found_nodes(found@)
                    } else {
                        Seq::empty()
                    },
                    is_dir,
                }
            },
            None => own_size + found_size(found@) > u64::MAX,
        },
{
    let ghost all = found@;
    let mut total: u64 = own_size;
    let mut children: Vec<Node> = Vec::new();
    assert(all.take(0) =~= Seq::<Found>::empty());
    for entry in it: found
        invariant
            it.seq() == all,
            total == own_size + found_size(all.take(it.index() as int)),
            children@.len() == if keeps_children(depth) {
                it.index()
            } else {
                0
            },
            forall|i: int|
                0 <= i < children@.len() ==> (#[trigger] children@[i])@ == found_node(all[i]),
    {
        let ghost at = it.index() as int;
        proof {
            let upto = all.take(at + 1);
            assert(upto.drop_last() =~= all.take(at));
            assert(upto.last() == all[at]);
            lemma_found_size_grows(all, at + 1);
        }
        let child = match entry {
            Found::Directory(tree) => tree,
            Found::File { path, size } => Node::new(path, size, Vec::new(), false),
        };
        assert(child@ =~= found_node(all[at])) by {
            assert(child@.children =~= found_node(all[at]).children);
        }
        if child.size > u64::MAX - total {
            return None;
        }
        total = total + child.size;
        if depth > 0 {
            children.push(child);
        }
    }
    assert(all.take(all.len() as int) =~= all);
    let node = Node { path, size: total, children, is_dir };
    assert(node@.children =~= if keeps_children(depth) {
        found_nodes(all)
    } else {
        Seq::empty()
    });
    Some(node)
}

/// The bytes of all that was found are no less than those of what was found first.
pub proof fn lemma_found_size_grows(found: Seq<Found>, upto: int)
    requires
        0 <= upto <= found.len(),
    ensures
        found_size(found.take(upto)) <= found_size(found),
    decreases found.len(),
{
    if upto == found.len() {
        assert(found.take(upto) =~= found);
    } else {
        assert(found.drop_last().take(upto) =~= found.take(upto));
        lemma_found_size_grows(found.drop_last(), upto);
    }
}

} // verus!
