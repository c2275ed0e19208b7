use bool_algebra::bin_tree::{BinTree, BinTreeNode};
use bool_algebra::tree_print::{join_lines, max_width, split_lines, OutOfRange};

fn leaf(label: &str) -> Option<Box<BinTreeNode<String>>> {
    Some(Box::new(BinTreeNode::of(label.to_string())))
}

fn node(
    label: &str,
    left: Option<Box<BinTreeNode<String>>>,
    right: Option<Box<BinTreeNode<String>>>,
) -> Option<Box<BinTreeNode<String>>> {
    Some(Box::new(BinTreeNode::from(Some(label.to_string()), left, right)))
}

fn tree(root: Option<Box<BinTreeNode<String>>>) -> BinTree<String> {
    let mut tree = BinTree::new();
    tree.root = *root.unwrap();
    tree
}

#[test]
fn test_format_tree_empty() {
    let tree: BinTree<String> = BinTree::new();
    assert_eq!(tree.format_tree(), Ok("(Empty Tree)".to_string()));
}

#[test]
fn test_format_tree_single_label() {
    assert_eq!(tree(leaf("a")).format_tree(), Ok("a".to_string()));
    assert_eq!(tree(leaf("false")).format_tree(), Ok("false".to_string()));
}

#[test]
fn test_format_tree_two_children() {
    let t = tree(node("&", leaf("a"), leaf("b")));
    assert_eq!(t.format_tree(), Ok(" & \n┌┴┐\na b".to_string()));
}

#[test]
fn test_format_tree_left_child_only() {
    let t = tree(node("!", leaf("a"), None));
    assert_eq!(t.format_tree(), Ok("!\n│\na".to_string()));
}

#[test]
fn test_format_tree_right_child_only() {
    let t = tree(node("NOT", None, leaf("a")));
    assert_eq!(t.format_tree(), Ok("NOT\n│  \na  ".to_string()));
}

#[test]
fn test_format_tree_blank_children_are_hidden() {
    let blank = || Some(Box::new(BinTreeNode::new()));
    let t = tree(node("a", blank(), blank()));
    assert_eq!(t.format_tree(), Ok("a".to_string()));
}

#[test]
fn test_format_tree_wide_label_above_children() {
    let t = tree(node("wide label", leaf("a"), leaf("b")));
    assert_eq!(t.format_tree(), Ok("wide label\n┌┴┐       \na b       ".to_string()));
}

#[test]
fn test_format_tree_nested() {
    let t = tree(node("|", node("&", leaf("a"), leaf("b")), leaf("c")));
    assert_eq!(
        t.format_tree(),
        Ok("  |  \n ┌┴─┐\n &  c\n┌┴┐  \na b  ".to_string())
    );
}

#[test]
fn test_format_tree_child_below_wide_label() {
    let t = tree(node("label", leaf("x"), None));
    assert_eq!(t.format_tree(), Ok("label\n│    \nx    ".to_string()));
}

#[test]
fn test_format_tree_label_centred_above_wide_child() {
    let t = tree(node("!", node("=", leaf("left"), leaf("right")), None));
    assert_eq!(
        t.format_tree(),
        Ok("    !     \n    │     \n    =     \n  ┌─┴──┐  \nleft right".to_string())
    );
}

#[test]
fn test_format_tree_empty_label_hides_children() {
    let t = tree(node("", leaf("a"), leaf("b")));
    assert_eq!(t.format_tree(), Ok("".to_string()));
}

#[test]
fn test_format_tree_label_of_two_lines() {
    let t = tree(node("ab\nc", leaf("x"), None));
    assert_eq!(t.format_tree(), Ok("ab\nc \n│ \nx ".to_string()));
}

#[test]
fn test_format_tree_label_too_wide_to_centre() {
    let right = node("12345", leaf("x"), None);
    let t = tree(node("1234567", leaf("a"), right));
    assert_eq!(t.format_tree(), Err(OutOfRange));
}

#[test]
fn test_split_lines() {
    let texts = |v: Vec<String>| v;
    assert_eq!(texts(split_lines("")), Vec::<String>::new());
    assert_eq!(split_lines("a"), vec!["a"]);
    assert_eq!(split_lines("a\n"), vec!["a"]);
    assert_eq!(split_lines("a\nb"), vec!["a", "b"]);
    assert_eq!(split_lines("a\n\nb"), vec!["a", "", "b"]);
    assert_eq!(split_lines("\n"), vec![""]);
    assert_eq!(split_lines("a\r\nb\r\n"), vec!["a", "b"]);
    assert_eq!(split_lines("a\rb"), vec!["a\rb"]);
    assert_eq!(split_lines("a\r"), vec!["a\r"]);
    assert_eq!(split_lines("é\nü"), vec!["é", "ü"]);
}

#[test]
fn test_split_lines_agrees_with_std() {
    for text in ["", "a", "a\n", "\n\n", "a\r\n\r\nb", "\r\n", "x\ry\n", "a\n\rb", "\r"] {
        let expected: Vec<String> = text.lines().map(String::from).collect();
        assert_eq!(split_lines(text), expected);
    }
}

#[test]
fn test_join_lines() {
    assert_eq!(join_lines(&vec![]), "");
    assert_eq!(join_lines(&vec!["a".to_string()]), "a");
    assert_eq!(join_lines(&vec!["a".to_string(), "".to_string(), "b".to_string()]), "a\n\nb");
}

#[test]
fn test_max_width_counts_characters() {
    assert_eq!(max_width(&vec![]), 0);
    assert_eq!(max_width(&vec!["ab".to_string(), "abcd".to_string(), "a".to_string()]), 4);
    assert_eq!(max_width(&vec!["éü".to_string()]), 2);
}
