use sofidu::{file_size_to_str, Emphasis, Line, Node};

fn leaf(path: &str, size: u64) -> Node {
    Node::new(path.to_string(), size, vec![], false)
}

fn dir(path: &str, size: u64, children: Vec<Node>) -> Node {
    Node::new(path.to_string(), size, children, true)
}

fn fixture() -> Node {
    let node_1_1 = leaf("foo/bar/biz", 333);
    let node_1 = Node::new("foo/bar".to_string(), 4_333, vec![node_1_1], false);
    let node_2_1 = leaf("foo/baz/qiz", 1_233_333);
    let node_2 = Node::new("foo/baz".to_string(), 2_233_333, vec![node_2_1], false);
    Node::new("foo".to_string(), 3_666_233_333, vec![node_1, node_2], false)
}

#[test]
fn file_size_to_str_test() {
    assert_eq!("1B", file_size_to_str(1));
    assert_eq!("999B", file_size_to_str(999));
    assert_eq!("1.0KB", file_size_to_str(1_000));
    assert_eq!("2.1KB", file_size_to_str(2_100));
    assert_eq!("1.0MB", file_size_to_str(1_000_000));
    assert_eq!("4.2MB", file_size_to_str(4_233_333));
    assert_eq!("5.0GB", file_size_to_str(5_000_000_000));
}

#[test]
fn sizes_are_rounded_to_the_nearest_tenth_of_their_unit() {
    assert_eq!("0B", file_size_to_str(0));
    assert_eq!("1.0KB", file_size_to_str(1_049));
    assert_eq!("1.1KB", file_size_to_str(1_050));
    assert_eq!("999.9KB", file_size_to_str(999_949));
    assert_eq!("1000.0KB", file_size_to_str(999_950));
    assert_eq!("1000.0KB", file_size_to_str(999_999));
    assert_eq!("1000.0MB", file_size_to_str(999_999_999));
    assert_eq!("1.0GB", file_size_to_str(1_000_000_000));
    assert_eq!("3.7GB", file_size_to_str(3_666_233_333));
    assert_eq!("18446744073.7GB", file_size_to_str(u64::MAX));
}

#[test]
fn node_as_string_line_test() {
    let node = leaf("foo", 3_233_333);
    assert_eq!("foo 3.2MB", node.get_as_string_line(false, false, None));
    let node = Node::new("src".to_string(), 3_233_333, vec![], true);
    assert_eq!("src/ 3.2MB", node.get_as_string_line(false, false, None));
    let node = leaf("src/main.rs", 3_233_333);
    assert_eq!(
        "src/main.rs 3.2MB",
        node.get_as_string_line(true, false, None)
    );
}

#[test]
fn node_as_string_line_test_machine_readable() {
    let node = leaf("foo", 3_233_333);
    assert_eq!("foo 3233333", node.get_as_string_line(false, true, None));
    let node = leaf("foo", 3);
    assert_eq!("foo 3", node.get_as_string_line(false, true, None));
}

#[test]
fn node_as_string_tree_test() {
    let node_top = fixture();

    assert_eq!(
        "foo 3.7GB\n| bar 4.3KB 0.0%\n| | biz 333B 7.7%\n| baz 2.2MB 0.1%\n| | qiz 1.2MB 55.2%\n",
        node_top.get_as_string_tree(0, None, false, None).0
    );
    assert_eq!(
        "foo 3.7GB\n| baz 2.2MB 0.1%\n| | qiz 1.2MB 55.2%\n",
        node_top
            .get_as_string_tree(0, Some(1_000_000), false, None)
            .0
    );
    assert_eq!(
        "foo 3.7GB\n| bar 4.3KB 0.0%\n| baz 2.2MB 0.1%\n| | qiz 1.2MB 55.2%\n",
        node_top.get_as_string_tree(0, Some(4_000), false, None).0
    );
}

#[test]
fn line_shows_the_last_part_of_the_path_unless_the_whole_is_asked_for() {
    let node = leaf("a/b/c.txt", 5);
    assert_eq!("c.txt 5B", node.get_as_string_line(false, false, None));
    assert_eq!("a/b/c.txt 5B", node.get_as_string_line(true, false, None));
    let node = dir("a/b", 5, vec![]);
    assert_eq!("b/ 5", node.get_as_string_line(false, true, None));
    assert_eq!("a/b/ 5", node.get_as_string_line(true, true, None));
    let node = leaf("a/..", 5);
    assert_eq!("a/.. 5B", node.get_as_string_line(false, false, None));
}

#[test]
fn line_gives_the_share_of_the_parent_to_one_decimal_place() {
    let node = leaf("x", 1);
    assert_eq!("x 1B 33.3%", node.get_as_string_line(false, false, Some(3)));
    let node = leaf("x", 2);
    assert_eq!("x 2B 66.7%", node.get_as_string_line(false, false, Some(3)));
    assert_eq!("x 2B 100.0%", node.get_as_string_line(false, false, Some(2)));
    assert_eq!("x 2B 100.0%", node.get_as_string_line(false, false, Some(0)));
    assert_eq!("x 2B 200.0%", node.get_as_string_line(false, false, Some(1)));
    let node = leaf("x", 1);
    assert_eq!("x 1B 0.1%", node.get_as_string_line(false, false, Some(2_000)));
    assert_eq!("x 1B 0.0%", node.get_as_string_line(false, false, Some(2_001)));
    let node = leaf("x", u64::MAX);
    assert_eq!(
        "x 18446744073709551615 1844674407370955161500.0%",
        node.get_as_string_line(false, true, Some(1))
    );
}

#[test]
fn line_parts_say_how_the_share_compares() {
    let line = leaf("a/x", 31).line_at("| ", false, true, Some(100));
    assert_eq!(
        Line {
            indent: "| ".to_string(),
            name: "x".to_string(),
            is_dir: false,
            size: "31".to_string(),
            share: " 31.0%".to_string(),
            emphasis: Some(Emphasis::Strong),
        },
        line
    );
    assert_eq!("| x 31 31.0%", line.text());
    let emphasis = |size: u64, parent: u64| leaf("x", size).line_at("", true, true, Some(parent)).emphasis;
    assert_eq!(Some(Emphasis::Medium), emphasis(30, 100));
    assert_eq!(Some(Emphasis::Medium), emphasis(17, 100));
    assert_eq!(Some(Emphasis::Faint), emphasis(16, 100));
    assert_eq!(Some(Emphasis::Faint), emphasis(0, 100));
    assert_eq!(Some(Emphasis::Strong), emphasis(0, 0));
    assert_eq!(Some(Emphasis::Strong), emphasis(301, 1_000));
    assert_eq!(Some(Emphasis::Medium), emphasis(300, 1_000));
    assert_eq!(Some(Emphasis::Medium), emphasis(161, 1_000));
    assert_eq!(Some(Emphasis::Faint), emphasis(160, 1_000));
    assert_eq!(None, leaf("x", 1).line_at("", true, true, None).emphasis);
    assert_eq!("", leaf("x", 1).line_at("", true, true, None).share);
}

#[test]
fn tree_reports_whether_it_passes_the_threshold() {
    let tree = fixture();
    assert!(tree.get_as_string_tree(0, None, false, None).1);
    assert!(tree.get_as_string_tree(0, Some(3_666_233_333), false, None).1);
    assert!(!tree.get_as_string_tree(0, Some(3_666_233_334), false, None).1);
    let hidden = dir("r", 1, vec![dir("r/a", 2, vec![leaf("r/a/b", 50)])]);
    assert!(hidden.get_as_string_tree(0, Some(50), true, None).1);
    assert!(!hidden.get_as_string_tree(0, Some(51), true, None).1);
}

#[test]
fn tree_always_shows_the_root() {
    let tree = fixture();
    assert_eq!(
        "foo 3.7GB\n",
        tree.get_as_string_tree(0, Some(u64::MAX), false, None).0
    );
}

#[test]
fn tree_shows_a_node_if_and_only_if_it_or_something_below_it_reaches_the_threshold() {
    let tree = dir(
        "r",
        0,
        vec![
            dir("r/a", 5, vec![leaf("r/a/big", 50), leaf("r/a/small", 5)]),
            dir("r/b", 60, vec![leaf("r/b/small", 6)]),
            dir("r/c", 7, vec![dir("r/c/d", 8, vec![leaf("r/c/d/e", 9)])]),
            leaf("r/f", 50),
            leaf("r/g", 49),
        ],
    );
    assert_eq!(
        "r/ 0\n| a/ 5 100.0%\n| | big 50 1000.0%\n| b/ 60 100.0%\n| f 50 100.0%\n",
        tree.get_as_string_tree(0, Some(50), true, None).0
    );
    assert_eq!(
        "r/ 0\n| a/ 5 100.0%\n| | big 50 1000.0%\n| b/ 60 100.0%\n| c/ 7 100.0%\n| | d/ 8 114.3%\n| | | e 9 112.5%\n| f 50 100.0%\n| g 49 100.0%\n",
        tree.get_as_string_tree(0, Some(9), true, None).0
    );
    let lines = tree.tree_lines(0, Some(50), true, None).0;
    let shown: Vec<&str> = lines.iter().map(|line| line.name.as_str()).collect();
    assert_eq!(vec!["r/", "a/", "big", "b/", "f"], shown);
}

#[test]
fn tree_indents_by_depth_and_shows_the_whole_path_only_at_depth_zero() {
    let tree = dir("top/r", 10, vec![leaf("top/r/x", 4)]);
    assert_eq!(
        "top/r/ 10\n| x 4 40.0%\n",
        tree.get_as_string_tree(0, None, true, None).0
    );
    assert_eq!(
        "| | r/ 10 50.0%\n| | | x 4 40.0%\n",
        tree.get_as_string_tree(2, None, true, Some(20)).0
    );
    let lines = tree.tree_lines(1, None, true, None).0;
    assert_eq!(2, lines.len());
    assert_eq!("| ", lines[0].indent);
    assert_eq!("| | ", lines[1].indent);
    assert_eq!(Some(Emphasis::Strong), lines[1].emphasis);
}

#[test]
fn tree_keeps_the_order_of_the_children() {
    let children: Vec<Node> = (0..200u64)
        .map(|i| leaf(&format!("r/{}", i), (i * 7) % 13))
        .collect();
    let tree = dir("r", 1, children);
    let lines = tree.tree_lines(0, None, true, None).0;
    let names: Vec<String> = lines.iter().skip(1).map(|line| line.name.clone()).collect();
    let expected: Vec<String> = (0..200u64).map(|i| format!("{}", i)).collect();
    assert_eq!(expected, names);
}

#[test]
fn list_shows_each_entry_under_its_whole_path() {
    let tree = fixture();
    assert_eq!(
        "foo 3.7GB\nfoo/bar 4.3KB\nfoo/bar/biz 333B\nfoo/baz 2.2MB\nfoo/baz/qiz 1.2MB\n",
        tree.get_as_string_list(false, None, false)
    );
    assert_eq!(
        "foo 3666233333\nfoo/bar 4333\nfoo/bar/biz 333\nfoo/baz 2233333\nfoo/baz/qiz 1233333\n",
        tree.get_as_string_list(false, None, true)
    );
}

#[test]
fn list_filters_each_entry_by_itself() {
    let tree = dir(
        "r",
        100,
        vec![dir("r/a", 5, vec![leaf("r/a/big", 50)]), leaf("r/small", 4)],
    );
    assert_eq!(
        "r/ 100\nr/a/big 50\n",
        tree.get_as_string_list(false, Some(50), true)
    );
    assert_eq!(
        "r/a/big 50\nr/small 4\n",
        tree.get_as_string_list(true, None, true)
    );
    assert_eq!("r/a/big 50\n", tree.get_as_string_list(true, Some(5), true));
    assert_eq!("", tree.get_as_string_list(true, Some(51), true));
    let lines = tree.list_lines(false, Some(5), true);
    assert_eq!(3, lines.len());
    assert!(lines.iter().all(|line| line.indent.is_empty() && line.share.is_empty()));
}
