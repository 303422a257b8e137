use sofidu::{reverse_lines, Node};

#[test]
fn reverse_lines_puts_the_last_line_first() {
    assert_eq!("c\nb\na\n", reverse_lines("a\nb\nc\n"));
    assert_eq!("c\nb\na\n", reverse_lines("a\nb\nc"));
    assert_eq!("", reverse_lines(""));
    assert_eq!("\n", reverse_lines("\n"));
    assert_eq!("one\n", reverse_lines("one"));
    assert_eq!("b\n\na\n", reverse_lines("a\n\nb\n"));
    assert_eq!("\n\n", reverse_lines("\n\n"));
}

#[test]
fn reverse_lines_reads_line_endings_as_std_does() {
    for text in ["a\r\nb\r\n", "a\rb\nc", "a\r", "\r\n", "\r\r\n", "x\n\r", "é\nü\r\n| | ñ 1B\n"] {
        let expected: String = text.lines().rev().map(|l| l.to_owned() + "\n").collect();
        assert_eq!(expected, reverse_lines(text));
    }
    assert_eq!("b\na\n", reverse_lines("a\r\nb\r\n"));
    assert_eq!("a\r\n", reverse_lines("a\r"));
}

#[test]
fn reversed_tree_reads_from_the_bottom() {
    let leaf = Node::new("r/x".to_string(), 4, vec![], false);
    let tree = Node::new("r".to_string(), 10, vec![leaf], true);
    let text = tree.get_as_string_tree(0, None, true, None).0;
    assert_eq!("| x 4 40.0%\nr/ 10\n", reverse_lines(&text));
}
