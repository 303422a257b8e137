//! Rendering a tree of entries as text: one line per entry, as a tree or as a flat list.

use vstd::prelude::*;
use crate::node::{
    count, count_all, flat, lemma_flat_all_entry, lemma_flat_in_order, node_views, Node, NodeView,
};
use crate::size::{file_size_to_str, human_size};
use crate::text::{
    decimal, decimal_string, one_decimal, push_one_decimal, round_div, rounded_div,
};
use rayon::iter::{IntoParallelRefIterator, ParallelIterator};
use std::path::Path;

verus! {

/// The character that follows the name of a directory.
pub const SEPARATOR: char = '/';

/// How much of its parent an entry takes up, for those who colour the share.
#[derive(Debug, Clone, Copy, PartialEq, Eq, Structural)]
pub enum Emphasis {
    /// More than 30% of the parent, or the parent is empty.
    Strong,
    /// More than 16% of the parent.
    Medium,
    /// At most 16% of the parent.
    Faint,
}

/// One line of output, in the parts that a terminal may colour differently. The line reads
/// `indent`, `name`, a space, `size`, `share`.
#[derive(Debug, PartialEq, Eq)]
pub struct Line {
    /// The tree markers in front of the name.
    pub indent: String,
    /// The entry's name, with the separator behind it if the entry is a directory.
    pub name: String,
    pub is_dir: bool,
    /// The entry's size.
    pub size: String,
    /// The entry's share of its parent: a space, the percentage and `%`; empty without a parent.
    pub share: String,
    /// How the share compares; `None` without a parent.
    pub emphasis: Option<Emphasis>,
}

/// What a [`Line`] stands for.
pub struct LineView {
    pub indent: Seq<char>,
    pub name: Seq<char>,
    pub is_dir: bool,
    pub size: Seq<char>,
    pub share: Seq<char>,
    pub emphasis: Option<Emphasis>,
}

impl View for Line {
    type V = LineView;

    open spec fn view(&self) -> LineView {
        LineView {
            indent: self.indent@,
            name: self.name@,
            is_dir: self.is_dir,
            size: self.size@,
            share: self.share@,
            emphasis: self.emphasis,
        }
    }
}

/// The views of a run of lines, in order.
pub open spec fn line_views(lines: Seq<Line>) -> Seq<LineView> {
    Seq::new(lines.len(), |i: int| lines[i]@)
}

/// The parts of a line put together: the indent, the name, a space, the size, the share.
pub open spec fn joined(
    indent: Seq<char>,
    name: Seq<char>,
    size: Seq<char>,
    share: Seq<char>,
) -> Seq<char> {
    indent + name + seq![' '] + size + share
}

/// The text of a line.
pub open spec fn line_text(line: LineView) -> Seq<char> {
    joined(line.indent, line.name, line.size, line.share)
}

/// The text of several lines, each ended by a line feed.
pub open spec fn lines_text(lines: Seq<LineView>) -> Seq<char>
    decreases lines.len(),
{
    if lines.len() == 0 {
        Seq::empty()
    } else {
        lines_text(lines.drop_last()) + line_text(lines.last()).push('\n')
    }
}

/// The final component of a path, as `std::path::Path::file_name` finds it; `None` where the
/// path has none.
pub uninterp spec fn path_file_name(path: Seq<char>) -> Option<Seq<char>>;

/// A text that may be missing, by its view.
pub open spec fn text_view(text: Option<String>) -> Option<Seq<char>> {
    match text {
        Some(text) => Some(text@),
        None => None,
    }
}

/// `std::path::Path::file_name` on a path given as text. The contract names the result: it is
/// the final component that std finds in the path, and nothing more is claimed of it.
#[verifier::external_body]
fn file_name(path: &str) -> (name: Option<String>)
    ensures
        text_view(name) == path_file_name(path@),
{
    Path::new(path).file_name().map(|last| last.to_string_lossy().into_owned())
}

/// The name under which an entry is shown, given the final component of its path: the whole
/// path if that is asked for or the path has no final component, else the final component; a
/// directory is marked by the separator.
pub open spec fn shown_name(
    path: Seq<char>,
    last: Option<Seq<char>>,
    full_path: bool,
    is_dir: bool,
) -> Seq<char> {
    let name = if full_path {
        path
    } else {
        match last {
            Some(last) => last,
            None => path,
        }
    };
    if is_dir {
        name.push(SEPARATOR)
    } else {
        name
    }
}

/// The name under which `node` is shown.
pub open spec fn entry_name(node: NodeView, full_path: bool) -> Seq<char> {
    shown_name(node.path, path_file_name(node.path), full_path, node.is_dir)
}

/// A size as text: the bytes counted, or the size as people read it.
pub open spec fn size_text(size: u64, machine_readable: bool) -> Seq<char> {
    if machine_readable {
        decimal(size as nat)
    } else {
        human_size(size as nat)
    }
}

/// An entry's share of its parent in tenths of a percent, rounded to the nearest. Of an empty
/// parent every entry takes 100%.
pub open spec fn share_tenths(size: u64, parent_size: u64) -> nat {
    if parent_size == 0 {
        1000
    } else {
        rounded_div(1000 * size as nat, parent_size as nat)
    }
}

/// The share as it is shown: a space, the percentage with one decimal place, `%`.
pub open spec fn share_text(size: u64, parent_size: Option<u64>) -> Seq<char> {
    match parent_size {
        None => Seq::empty(),
        Some(parent_size) => seq![' '] + one_decimal(share_tenths(size, parent_size)).push('%'),
    }
}

/// How the share compares, by the exact ratio of the two sizes.
pub open spec fn emphasis_of(size: u64, parent_size: u64) -> Emphasis {
    if parent_size == 0 || 100 * size > 30 * parent_size {
        Emphasis::Strong
    } else if 100 * size > 16 * parent_size {
        Emphasis::Medium
    } else {
        Emphasis::Faint
    }
}

/// How the share compares, where there is a parent.
pub open spec fn share_emphasis(size: u64, parent_size: Option<u64>) -> Option<Emphasis> {
    match parent_size {
        None => None,
        Some(parent_size) => Some(emphasis_of(size, parent_size)),
    }
}

/// The line for `node` behind `indent`.
pub open spec fn line_of(
    node: NodeView,
    indent: Seq<char>,
    full_path: bool,
    machine_readable: bool,
    parent_size: Option<u64>,
) -> LineView {
    LineView {
        indent,
        name: entry_name(node, full_path),
        is_dir: node.is_dir,
        size: size_text(node.size, machine_readable),
        share: share_text(node.size, parent_size),
        emphasis: share_emphasis(node.size, parent_size),
    }
}

/// The tree markers in front of an entry `depth` levels below the root.
pub open spec fn indentation(depth: nat) -> Seq<char>
    decreases depth,
{
    if depth == 0 {
        Seq::empty()
    } else {
        indentation((depth - 1) as nat) + seq!['|', ' ']
    }
}

/// Whether a tree has anything to show under a threshold: without a threshold always; with
/// one, if the node itself reaches it or something in one of its children's trees does.
pub open spec fn passes(node: NodeView, threshold: Option<u64>) -> bool
    decreases node,
{
    match threshold {
        None => true,
        Some(least) => node.size >= least || exists|i: int|
            0 <= i < node.children.len() && passes(#[trigger] node.children[i], threshold),
    }
}

/// The lines of a tree: the node's own line behind `indent` (with the whole path at the
/// root), then the lines of its children one level deeper.
pub open spec fn tree_lines_at(
    node: NodeView,
    indent: Seq<char>,
    root: bool,
    threshold: Option<u64>,
    machine_readable: bool,
    parent_size: Option<u64>,
) -> Seq<LineView>
    decreases node,
{
    seq![line_of(node, indent, root, machine_readable, parent_size)] + children_lines(
        node.children,
        indent + seq!['|', ' '],
        threshold,
        machine_readable,
        node.size,
    )
}

/// The lines of the trees of `children`, in their order, behind `indent`. A child's tree is
/// shown if it passes the threshold, and left out whole if it does not.
pub open spec fn children_lines(
    children: Seq<NodeView>,
    indent: Seq<char>,
    threshold: Option<u64>,
    machine_readable: bool,
    parent_size: u64,
) -> Seq<LineView>
    decreases children,
{
    if children.len() == 0 {
        Seq::empty()
    } else {
        children_lines(children.drop_last(), indent, threshold, machine_readable, parent_size) + (
        if passes(children.last(), threshold) {
            tree_lines_at(
                children.last(),
                indent,
                false,
                threshold,
                machine_readable,
                Some(parent_size),
            )
        } else {
            Seq::empty()
        })
    }
}

/// The lines of the tree of `node`, shown `depth` levels deep. The node is shown whether or
/// not it passes the threshold, under its whole path if `depth` is 0.
pub open spec fn tree_lines(
    node: NodeView,
    depth: nat,
    threshold: Option<u64>,
    machine_readable: bool,
    parent_size: Option<u64>,
) -> Seq<LineView> {
    tree_lines_at(node, indentation(depth), depth == 0, threshold, machine_readable, parent_size)
}

/// Whether a list shows an entry: not a directory where only files are asked for, and not an
/// entry below the threshold. Nothing else counts, neither what is above the entry nor what is
/// below it.
pub open spec fn listed(entry: NodeView, only_files: bool, threshold: Option<u64>) -> bool {
    &&& !(only_files && entry.is_dir)
    &&& match threshold {
        None => true,
        Some(least) => entry.size >= least,
    }
}

/// The lines for those of `entries` that a list shows, in their order: each under its whole
/// path, without indent or share.
pub open spec fn entries_lines(
    entries: Seq<NodeView>,
    only_files: bool,
    threshold: Option<u64>,
    machine_readable: bool,
) -> Seq<LineView>
    decreases entries.len(),
{
    if entries.len() == 0 {
        Seq::empty()
    } else {
        entries_lines(entries.drop_last(), only_files, threshold, machine_readable) + (
        if listed(entries.last(), only_files, threshold) {
            seq![line_of(entries.last(), Seq::empty(), true, machine_readable, None)]
        } else {
            Seq::empty()
        })
    }
}

/// The lines of the list of a tree: those of its entries, parents before their children.
pub open spec fn list_lines(
    node: NodeView,
    only_files: bool,
    threshold: Option<u64>,
    machine_readable: bool,
) -> Seq<LineView> {
    entries_lines(flat(node), only_files, threshold, machine_readable)
}

/// The name under which an entry is shown, given the final component of its path.
pub fn display_name(path: &str, last: Option<String>, full_path: bool, is_dir: bool) -> (name:
    String)
    ensures
        name@ == shown_name(path@, text_view(last), full_path, is_dir),
{
    let mut name = if full_path {
        path.to_owned()
    } else {
        match last {
            Some(last) => last,
            None => path.to_owned(),
        }
    };
    if is_dir {
        name.push(SEPARATOR);
    }
    name
}

/// A size as text.
pub fn size_to_text(size: u64, machine_readable: bool) -> (text: String)
    ensures
        text@ == size_text(size, machine_readable),
{
    if machine_readable {
        decimal_string(size as u128)
    } else {
        file_size_to_str(size)
    }
}

/// How an entry of `size` bytes compares to a parent of `parent_size` bytes.
pub fn emphasis(size: u64, parent_size: u64) -> (e: Emphasis)
    ensures
        e == emphasis_of(size, parent_size),
{
    if parent_size == 0 || 100 * (size as u128) > 30 * (parent_size as u128) {
        Emphasis::Strong
    } else if 100 * (size as u128) > 16 * (parent_size as u128) {
        Emphasis::Medium
    } else {
        Emphasis::Faint
    }
}

/// The share of an entry of `size` bytes in a parent of `parent_size` bytes, as it is shown.
pub fn share_to_text(size: u64, parent_size: Option<u64>) -> (text: String)
    ensures
        text@ == share_text(size, parent_size),
{
    let mut text = String::new();
    match parent_size {
        None => {},
        Some(parent_size) => {
            let tenths = if parent_size == 0 {
                1000
            } else {
                round_div(1000 * (size as u128), parent_size as u128)
            };
            text.push(' ');
            push_one_decimal(&mut text, tenths);
            text.push('%');
            assert(text@ =~= share_text(size, Some(parent_size)));
        },
    }
    text
}

/// Puts the parts of a line together.
pub fn join_line(indent: &str, name: &str, size: &str, share: &str) -> (text: String)
    ensures
        text@ == joined(indent@, name@, size@, share@),
{
    let mut text = indent.to_owned();
    text.append(name);
    text.push(' ');
    text.append(size);
    text.append(share);
    assert(text@ =~= joined(indent@, name@, size@, share@));
    text
}

impl Line {
    /// The line as plain text, without a line feed.
    pub fn text(&self) -> (text: String)
        ensures
            text@ == line_text(self@),
    {
        join_line(self.indent.as_str(), self.name.as_str(), self.size.as_str(), self.share.as_str())
    }
}

/// Several lines as one text, each ended by a line feed.
pub fn lines_to_text(lines: &Vec<Line>) -> (text: String)
    ensures
        text@ == lines_text(line_views(lines@)),
{
    let mut text = String::new();
    let count = lines.len();
    let mut i: usize = 0;
    while i < count
        invariant
            i <= count,
            count == lines@.len(),
            text@ == lines_text(line_views(lines@).take(i as int)),
        decreases count - i,
    {
        let line = lines[i].text();
        text.append(line.as_str());
        text.push('\n');
        proof {
            let upto = line_views(lines@).take(i as int + 1);
            assert(upto.drop_last() =~= line_views(lines@).take(i as int));
            assert(upto.last() == lines@[i as int]@);
        }
        i += 1;
    }
    assert(line_views(lines@).take(count as int) =~= line_views(lines@));
    text
}

/// The tree markers for `depth` levels.
pub fn indent_text(depth: usize) -> (indent: String)
    ensures
        indent@ == indentation(depth as nat),
{
    let mut indent = String::new();
    let mut level: usize = 0;
    while level < depth
        invariant
            level <= depth,
            indent@ == indentation(level as nat),
        decreases depth - level,
    {
        indent.push('|');
        indent.push(' ');
        level += 1;
        assert(indent@ =~= indentation((level - 1) as nat) + seq!['|', ' ']);
    }
    indent
}

impl Node {
    /// The line for this node behind `indent`.
    pub fn line_at(
        &self,
        indent: &str,
        full_path: bool,
        machine_readable: bool,
        parent_size: Option<u64>,
    ) -> (line: Line)
        ensures
            line@ == line_of(self@, indent@, full_path, machine_readable, parent_size),
    {
        let last = if full_path {
            None
        } else {
            file_name(self.path.as_str())
        };
        Line {
            indent: indent.to_owned(),
            name: display_name(self.path.as_str(), last, full_path, self.is_dir),
            is_dir: self.is_dir,
            size: size_to_text(self.size, machine_readable),
            share: share_to_text(self.size, parent_size),
            emphasis: match parent_size {
                None => None,
                Some(parent_size) => Some(emphasis(self.size, parent_size)),
            },
        }
    }

    /// The trees of the children behind `indent`, each with whether it passes the threshold,
    /// in the children's order. The children are rendered in parallel by rayon's
    /// `par_iter`, `map` and `collect`, which hand each child to `tree_lines_at` once and
    /// keep the results in the order of the children; the contract says that of each result
    /// what `tree_lines_at` ensures.
    #[verifier::external_body]
    fn children_trees(
        &self,
        indent: &str,
        threshold: Option<u64>,
        machine_readable: bool,
    ) -> (trees: Vec<(Vec<Line>, bool)>)
        ensures
            trees@.len() == self.children@.len(),
            forall|i: int|
                0 <= i < trees@.len() ==> line_views((#[trigger] trees@[i]).0@) == tree_lines_at(
                    self.children@[i]@,
                    indent@,
                    false,
                    threshold,
                    machine_readable,
                    Some(self.size),
                ) && trees@[i].1 == passes(self.children@[i]@, threshold),
    {
        self.children.par_iter().map(
            |child|
                child.tree_lines_at(indent, false, threshold, machine_readable, Some(self.size)),
        ).collect()
    }

    /// The lines of this node's tree behind `indent`, and whether the tree passes the
    /// threshold.
    fn tree_lines_at(
        &self,
        indent: &str,
        root: bool,
        threshold: Option<u64>,
        machine_readable: bool,
        parent_size: Option<u64>,
    ) -> (tree: (Vec<Line>, bool))
        ensures
            line_views(tree.0@) == tree_lines_at(
                self@,
                indent@,
                root,
                threshold,
                machine_readable,
                parent_size,
            ),
            tree.1 == passes(self@, threshold),
    {
        let mut passed = match threshold {
            Some(least) => self.size >= least,
            None => true,
        };
        let mut lines: Vec<Line> = Vec::new();
        lines.push(self.line_at(indent, root, machine_readable, parent_size));
        let mut deeper = indent.to_owned();
        deeper.push('|');
        deeper.push(' ');
        assert(deeper@ =~= indent@ + seq!['|', ' ']);
        let trees = self.children_trees(deeper.as_str(), threshold, machine_readable);
        let ghost own = line_of(self@, indent@, root, machine_readable, parent_size);
        let ghost children = self@.children;
        let ghost all = trees@;
        assert(line_views(lines@) =~= seq![own]);
        assert(children.take(0) =~= Seq::<NodeView>::empty());
        for tree in it: trees
            invariant
                it.seq() == all,
                all.len() == children.len(),
                children == self@.children,
                forall|i: int|
                    0 <= i < all.len() ==> line_views((#[trigger] all[i]).0@) == tree_lines_at(
                        children[i],
                        deeper@,
                        false,
                        threshold,
                        machine_readable,
                        Some(self.size),
                    ) && all[i].1 == passes(children[i], threshold),
                line_views(lines@) == seq![own] + children_lines(
                    children.take(it.index() as int),
                    deeper@,
                    threshold,
                    machine_readable,
                    self.size,
                ),
                passed == (match threshold {
                    None => true,
                    Some(least) => self.size >= least || exists|i: int|
                        0 <= i < it.index() && passes(#[trigger] children[i], threshold),
                }),
        {
            let ghost at = it.index() as int;
            let ghost before = lines@;
            let (mut below, shown) = tree;
            if shown {
                lines.append(&mut below);
                passed = true;
            }
            proof {
                let upto = children.take(at + 1);
                assert(upto.drop_last() =~= children.take(at));
                assert(upto.last() == children[at]);
                assert(all[at].1 == passes(children[at], threshold));
                if shown {
                    assert(line_views(lines@) =~= line_views(before) + line_views(all[at].0@));
                } else {
                    assert(line_views(lines@) =~= line_views(before));
                }
            }
        }
        assert(children.take(children.len() as int) =~= children);
        (lines, passed)
    }

    /// The lines of this node's tree, shown `depth` levels deep, and whether the tree passes
    /// the threshold.
    pub fn tree_lines(
        &self,
        depth: usize,
        size_threshold: Option<u64>,
        machine_readable: bool,
        parent_size: Option<u64>,
    ) -> (tree: (Vec<Line>, bool))
        ensures
            line_views(tree.0@) == tree_lines(
                self@,
                depth as nat,
                size_threshold,
                machine_readable,
                parent_size,
            ),
            tree.1 == passes(self@, size_threshold),
    {
        let indent = indent_text(depth);
        self.tree_lines_at(
            indent.as_str(),
            depth == 0,
            size_threshold,
            machine_readable,
            parent_size,
        )
    }

    /// The tree of this node as text, one line per entry, and whether the tree passes the
    /// threshold. The node itself is always shown; of its descendants those whose tree passes.
    pub fn get_as_string_tree(
        &self,
        depth: usize,
        size_threshold: Option<u64>,
        machine_readable: bool,
        parent_size: Option<u64>,
    ) -> (tree: (String, bool))
        ensures
            tree.0@ == lines_text(
                tree_lines(self@, depth as nat, size_threshold, machine_readable, parent_size),
            ),
            tree.1 == passes(self@, size_threshold),
    {
        let (lines, passed) = self.tree_lines(depth, size_threshold, machine_readable, parent_size);
        (lines_to_text(&lines), passed)
    }

    /// The lines of the list of this node's tree: one for each entry that the list shows.
    pub fn list_lines(
        &self,
        only_files: bool,
        size_threshold: Option<u64>,
        machine_readable: bool,
    ) -> (lines: Vec<Line>)
        ensures
            line_views(lines@) == list_lines(self@, only_files, size_threshold, machine_readable),
    {
        let entries = self.flatten();
        let mut lines: Vec<Line> = Vec::new();
        let count = entries.len();
        let mut i: usize = 0;
        assert(line_views(lines@) =~= Seq::<LineView>::empty());
        while i < count
            invariant
                i <= count,
                count == entries@.len(),
                node_views(entries@) == flat(self@),
                line_views(lines@) == entries_lines(
                    flat(self@).take(i as int),
                    only_files,
                    size_threshold,
                    machine_readable,
                ),
            decreases count - i,
        {
            let ghost before = lines@;
            let entry = &entries[i];
            assert(entry@ == flat(self@)[i as int]);
            let below = match size_threshold {
                Some(least) => entry.size < least,
                None => false,
            };
            if !(only_files && entry.is_dir) && !below {
                let line = entry.line(true, machine_readable, None);
                lines.push(line);
                assert(line_views(lines@) =~= line_views(before).push(line@));
            }
            proof {
                let upto = flat(self@).take(i as int + 1);
                assert(upto.drop_last() =~= flat(self@).take(i as int));
                assert(upto.last() == entry@);
            }
            i += 1;
        }
        assert(flat(self@).take(count as int) =~= flat(self@));
        lines
    }

    /// The list of this node's tree as text, one line per entry that the list shows.
    pub fn get_as_string_list(
        &self,
        only_files: bool,
        size_threshold: Option<u64>,
        machine_readable: bool,
    ) -> (text: String)
        ensures
            text@ == lines_text(list_lines(self@, only_files, size_threshold, machine_readable)),
    {
        let lines = self.list_lines(only_files, size_threshold, machine_readable);
        lines_to_text(&lines)
    }

    /// The line for this node without indent.
    pub fn line(&self, full_path: bool, machine_readable: bool, parent_size: Option<u64>) -> (line:
        Line)
        ensures
            line@ == line_of(self@, Seq::empty(), full_path, machine_readable, parent_size),
    {
        proof {
            reveal_strlit("");
        }
        let line = self.line_at("", full_path, machine_readable, parent_size);
        assert(line@.indent =~= Seq::empty());
        line
    }

    /// The line for this node as text: its name (the whole path if `full_path`), its size
    /// (the bytes counted if `machine_readable`) and, where the parent's size is given, its
    /// share of the parent.
    pub fn get_as_string_line(
        &self,
        full_path: bool,
        machine_readable: bool,
        parent_size: Option<u64>,
    ) -> (text: String)
        ensures
            text@ == line_text(
                line_of(self@, Seq::empty(), full_path, machine_readable, parent_size),
            ),
    {
        self.line(full_path, machine_readable, parent_size).text()
    }
}

/// A tree passes a threshold if and only if one of its entries reaches the threshold: the
/// node itself or any node below it, however deep.
pub proof fn lemma_passes_iff_reached(node: NodeView, least: u64)
    ensures
        passes(node, Some(least)) <==> exists|k: int|
            0 <= k < flat(node).len() && (#[trigger] flat(node)[k]).size >= least,
    decreases node,
{
    let threshold = Some(least);
    if passes(node, threshold) {
        if node.size >= least {
            assert(flat(node)[0].size >= least);
        } else {
            let i = choose|i: int|
                0 <= i < node.children.len() && passes(#[trigger] node.children[i], threshold);
            let child = node.children[i];
            lemma_passes_iff_reached(child, least);
            let k = choose|k: int|
                0 <= k < flat(child).len() && (#[trigger] flat(child)[k]).size >= least;
            lemma_flat_in_order(node, i);
            let from = 1 + count_all(node.children.take(i)) as int;
            let to = from + count(child);
            assert(flat(node).subrange(from, to)[k] == flat(node)[from + k]);
            assert(flat(node)[from + k].size >= least);
        }
    }
    if exists|k: int| 0 <= k < flat(node).len() && (#[trigger] flat(node)[k]).size >= least {
        let k = choose|k: int|
            0 <= k < flat(node).len() && (#[trigger] flat(node)[k]).size >= least;
        if k > 0 {
            let (i, below) = lemma_flat_all_entry(node.children, k - 1);
            assert(flat(node.children[i])[below].size >= least);
            lemma_passes_iff_reached(node.children[i], least);
            assert(passes(node.children[i], threshold));
        }
    }
}

/// Where a child's tree passes a threshold, so does the tree of its parent: whatever is
/// shown below the root has all its ancestors shown above it.
pub proof fn lemma_passes_up(node: NodeView, i: int, threshold: Option<u64>)
    requires
        0 <= i < node.children.len(),
        passes(node.children[i], threshold),
    ensures
        passes(node, threshold),
{
}

} // verus!
