use sofidu::Node;

fn leaf(path: &str, size: u64) -> Node {
    Node::new(path.to_string(), size, vec![], false)
}

fn dir(path: &str, size: u64, children: Vec<Node>) -> Node {
    Node::new(path.to_string(), size, children, true)
}

fn sizes(nodes: &[Node]) -> Vec<u64> {
    nodes.iter().map(|node| node.size).collect()
}

#[test]
fn node_sort_test() {
    let node_1 = leaf("foo", 0);
    let node_2 = leaf("bar", 1);
    let node_3 = leaf("baz", 100);
    let children = vec![node_1.clone(), node_3.clone(), node_2.clone()];

    let mut node = Node::new("quaz".to_string(), 0, children, false);

    node.sort();

    let children_out = vec![node_3, node_2, node_1];
    assert_eq!(children_out, node.children);
}

#[test]
fn node_sort_test_recursive() {
    let node_1 = leaf("foo", 0);
    let node_2 = leaf("bar", 1);
    let mut node_3 = Node::new(
        "baz".to_string(),
        100,
        vec![node_1.clone_childless(), node_2.clone_childless()],
        false,
    );

    let children = vec![node_1.clone(), node_3.clone(), node_2.clone()];
    node_3.sort();

    let mut node = Node::new("quaz".to_string(), 0, children, false);

    let children_out = vec![node_3, node_2, node_1];
    node.sort();

    assert_eq!(children_out, node.children);
}

#[test]
fn node_flatten_test() {
    let node_1_1 = leaf("foo/bar/biz", 4_333);
    let node_1 = Node::new("foo/bar".to_string(), 333, vec![node_1_1.clone()], false);
    let node_2 = leaf("foo/baz", 3_000_233_333);
    let node_top = Node::new(
        "foo".to_string(),
        3_233_333,
        vec![node_1.clone(), node_2.clone()],
        false,
    );
    let result = vec![
        node_top.clone_childless(),
        node_1.clone_childless(),
        node_1_1.clone_childless(),
        node_2.clone_childless(),
    ];
    assert_eq!(result, node_top.flatten());
}

#[test]
fn node_clone_childless_test() {
    let node_1_1 = leaf("foo/bar/biz", 4_333);
    let node_1 = Node::new("foo/bar".to_string(), 333, vec![node_1_1], false);
    let node_2 = leaf("foo/baz", 3_000_233_333);
    let node_top = Node::new("foo".to_string(), 3_233_333, vec![node_1, node_2], false);

    assert_eq!(Vec::<Node>::new(), node_top.clone_childless().children);
}

#[test]
fn new_keeps_its_parts() {
    let node = Node::new("a/b".to_string(), 7, vec![leaf("a/b/c", 3)], true);
    assert_eq!("a/b", node.path);
    assert_eq!(7, node.size);
    assert!(node.is_dir);
    assert_eq!(vec![leaf("a/b/c", 3)], node.children);
}

#[test]
fn clone_copies_the_whole_tree() {
    let tree = dir("a", 10, vec![dir("a/b", 6, vec![leaf("a/b/c", 6)]), leaf("a/d", 4)]);
    let copy = tree.clone();
    assert_eq!(tree, copy);
    assert_eq!(1, copy.children[0].children.len());
}

#[test]
fn clone_childless_keeps_path_size_and_kind() {
    let tree = dir("a", 10, vec![leaf("a/d", 4)]);
    let copy = tree.clone_childless();
    assert_eq!("a", copy.path);
    assert_eq!(10, copy.size);
    assert!(copy.is_dir);
    assert!(copy.children.is_empty());
}

#[test]
fn flatten_lists_parents_before_children_and_counts_every_node() {
    let tree = dir(
        "r",
        100,
        vec![
            dir("r/a", 60, vec![leaf("r/a/x", 50), dir("r/a/y", 10, vec![leaf("r/a/y/z", 10)])]),
            leaf("r/b", 30),
            dir("r/c", 10, vec![]),
        ],
    );
    let flat = tree.flatten();
    let paths: Vec<&str> = flat.iter().map(|node| node.path.as_str()).collect();
    assert_eq!(
        vec!["r", "r/a", "r/a/x", "r/a/y", "r/a/y/z", "r/b", "r/c"],
        paths
    );
    let below: usize = tree.children.iter().map(|child| child.flatten().len()).sum();
    assert_eq!(1 + below, flat.len());
    assert!(flat.iter().all(|node| node.children.is_empty()));
    assert_eq!(vec![100, 60, 50, 10, 10, 30, 10], sizes(&flat));
    assert_eq!(
        vec![true, true, false, true, false, false, true],
        flat.iter().map(|node| node.is_dir).collect::<Vec<bool>>()
    );
}

#[test]
fn flatten_of_a_leaf_is_the_leaf() {
    assert_eq!(vec![leaf("x", 1)], leaf("x", 1).flatten());
}

#[test]
fn sort_orders_every_level_and_keeps_every_node() {
    let mut tree = dir(
        "r",
        5,
        vec![
            leaf("r/small", 1),
            dir(
                "r/big",
                90,
                vec![leaf("r/big/a", 10), leaf("r/big/b", 70), leaf("r/big/c", 10)],
            ),
            dir("r/mid", 20, vec![leaf("r/mid/a", 5), leaf("r/mid/b", 15)]),
        ],
    );
    let mut before: Vec<(String, u64, bool)> = tree
        .flatten()
        .into_iter()
        .map(|node| (node.path, node.size, node.is_dir))
        .collect();

    tree.sort();

    assert_eq!("r", tree.path);
    assert_eq!(5, tree.size);
    assert_eq!(vec![90, 20, 1], sizes(&tree.children));
    assert_eq!(vec![70, 10, 10], sizes(&tree.children[0].children));
    assert_eq!("r/big/b", tree.children[0].children[0].path);
    assert_eq!(vec![15, 5], sizes(&tree.children[1].children));
    let mut after: Vec<(String, u64, bool)> = tree
        .flatten()
        .into_iter()
        .map(|node| (node.path, node.size, node.is_dir))
        .collect();
    before.sort();
    after.sort();
    assert_eq!(before, after);
}

#[test]
fn sort_of_a_sorted_tree_changes_no_sizes() {
    let mut tree = dir("r", 0, vec![leaf("r/a", 3), leaf("r/b", 2), leaf("r/c", 1)]);
    tree.sort();
    assert_eq!(vec![3, 2, 1], sizes(&tree.children));
    let mut none = leaf("x", 9);
    none.sort();
    assert_eq!(leaf("x", 9), none);
}
