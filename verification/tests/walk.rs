use sofidu::{action_for, counted_length, depth_below, gather, Action, Found, Kind, Node};

fn file(path: &str, size: u64) -> Found {
    Found::File { path: path.to_string(), size }
}

fn leaf(path: &str, size: u64) -> Node {
    Node::new(path.to_string(), size, vec![], false)
}

#[test]
fn gather_sums_the_sizes_and_keeps_what_was_found_in_order() {
    let bar = gather("foo/bar".to_string(), true, 4_000, 1, vec![file("foo/bar/biz", 333)]).unwrap();
    assert_eq!(4_333, bar.size);
    let root = gather(
        "foo".to_string(),
        true,
        3_229_000,
        2,
        vec![Found::Directory(bar), file("foo/baz", 3_000_233_333)],
    )
    .unwrap();
    assert_eq!(3_233_333 + 3_000_233_333, root.size);
    assert!(root.is_dir);
    assert_eq!("foo", root.path);
    assert_eq!(
        vec![
            Node::new("foo/bar".to_string(), 4_333, vec![leaf("foo/bar/biz", 333)], true),
            leaf("foo/baz", 3_000_233_333),
        ],
        root.children
    );
    assert_eq!(
        "foo/ 3.0GB\n| bar/ 4.3KB 0.0%\n| | biz 333B 7.7%\n| baz 3.0GB 99.9%\n",
        root.get_as_string_tree(0, None, false, None).0
    );
    assert_eq!(
        "foo/ 3003466666\nfoo/bar/ 4333\nfoo/baz 3000233333\n",
        root.get_as_string_list(false, Some(334), true)
    );
}

#[test]
fn gather_without_depth_left_counts_but_keeps_no_children() {
    let below = gather("d/sub".to_string(), true, 10, -1, vec![file("d/sub/x", 90)]).unwrap();
    assert_eq!(100, below.size);
    assert!(below.children.is_empty());
    let root = gather(
        "d".to_string(),
        true,
        5,
        0,
        vec![Found::Directory(below), file("d/y", 7)],
    )
    .unwrap();
    assert_eq!(112, root.size);
    assert!(root.children.is_empty());
    assert_eq!("d/ 112\n", root.get_as_string_tree(0, None, true, None).0);
}

#[test]
fn gather_of_nothing_is_the_entry_itself() {
    let node = gather("f".to_string(), false, 42, 3, vec![]).unwrap();
    assert_eq!(leaf("f", 42), node);
}

#[test]
fn gather_gives_nothing_when_the_size_does_not_fit() {
    assert_eq!(
        None,
        gather("d".to_string(), true, 1, 1, vec![file("d/x", u64::MAX)])
    );
    assert_eq!(
        None,
        gather(
            "d".to_string(),
            true,
            0,
            1,
            vec![file("d/x", u64::MAX), file("d/y", 0), file("d/z", 1)]
        )
    );
    let full = gather("d".to_string(), true, 1, 1, vec![file("d/x", u64::MAX - 1)]).unwrap();
    assert_eq!(u64::MAX, full.size);
}

#[test]
fn depth_below_goes_down_to_zero() {
    assert_eq!(i32::MAX - 1, depth_below(i32::MAX));
    assert_eq!(1, depth_below(2));
    assert_eq!(0, depth_below(1));
    assert_eq!(0, depth_below(0));
    assert_eq!(0, depth_below(-1));
    assert_eq!(0, depth_below(i32::MIN));
}

#[test]
fn walk_measures_files_walks_directories_and_passes_over_the_rest() {
    assert_eq!(Action::Walk, action_for(Some(Kind::Directory)));
    assert_eq!(Action::Measure, action_for(Some(Kind::File)));
    assert_eq!(Action::Pass, action_for(Some(Kind::Other)));
    assert_eq!(Action::Pass, action_for(None));
    assert_eq!(17, counted_length(Some(17)));
    assert_eq!(0, counted_length(None));
}
