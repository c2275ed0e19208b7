use bool_algebra::bin_tree::{BinTree, BinTreeNode};
use bool_algebra::tree_dump::{
    build_display_rows, cell_width, format_rows, trim_left_whitespace, CellDisplay,
};
use bool_algebra::tree_print::OutOfRange;

fn leaf(label: &str) -> Option<Box<BinTreeNode<String>>> {
    Some(Box::new(BinTreeNode::of(label.to_string())))
}

fn node(
    label: &str,
    left: Option<Box<BinTreeNode<String>>>,
    right: Option<Box<BinTreeNode<String>>>,
) -> Option<Box<BinTreeNode<String>>> {
    Some(Box::new(BinTreeNode::from(Some(label.to_string()), left, right)))
}

fn tree(root: Option<Box<BinTreeNode<String>>>) -> BinTree<String> {
    let mut tree = BinTree::new();
    tree.root = *root.unwrap();
    tree
}

fn texts(row: &Vec<CellDisplay>) -> Vec<Option<String>> {
    row.iter().map(|cell| cell.str.clone()).collect()
}

#[test]
fn test_dump_single_label() {
    assert_eq!(tree(leaf("a")).dump(), Ok("a ".to_string()));
}

#[test]
fn test_dump_two_children() {
    let t = tree(node("&", leaf("a"), leaf("b")));
    assert_eq!(t.dump(), Ok("  & \n / \\\na   b ".to_string()));
}

#[test]
fn test_dump_nested() {
    let t = tree(node("|", node("&", leaf("a"), leaf("b")), leaf("c")));
    let expected = [
        "      | ",
        "     / \\",
        "    /   \\",
        "   /     \\",
        "  &       c ",
        " / \\        ",
        "a   b         ",
    ];
    assert_eq!(t.dump(), Ok(expected.join("\n")));
}

#[test]
fn test_dump_right_child_only() {
    let t = tree(node("NOT", None, leaf("false")));
    assert_eq!(t.dump(), Ok("NOT \n  \\\n   \\\n  false".to_string()));
}

#[test]
fn test_dump_left_child_only() {
    let t = tree(node("!", leaf("a"), None));
    assert_eq!(t.dump(), Ok("  ! \n /  \na     ".to_string()));
}

#[test]
fn test_dump_blank_children_take_room() {
    let blank = || Some(Box::new(BinTreeNode::new()));
    let t = tree(node("a", blank(), blank()));
    assert_eq!(t.dump(), Ok("a \n  \n    ".to_string()));
}

#[test]
fn test_dump_empty_tree() {
    let t: BinTree<String> = BinTree::new();
    assert_eq!(t.dump(), Ok("".to_string()));
}

#[test]
fn test_dump_label_that_fills_its_cell() {
    assert_eq!(tree(leaf("ab")).dump(), Ok("ab ".to_string()));
    assert_eq!(tree(leaf("abc")).dump(), Ok("abc".to_string()));
    assert_eq!(tree(leaf("abcd")).dump(), Ok("abcd ".to_string()));
}

#[test]
fn test_dump_empty_label_still_has_branches() {
    let t = tree(node("", leaf("x"), None));
    assert_eq!(t.dump(), Ok("    \n /  \nx     ".to_string()));
}

#[test]
fn test_dump_too_deep() {
    let mut root = leaf("x");
    for _ in 0..70 {
        root = node("x", root, None);
    }
    assert_eq!(tree(root).dump(), Err(OutOfRange));
}

#[test]
fn test_build_display_rows() {
    let t = tree(node("|", node("&", None, leaf("b")), leaf("c")));
    let rows = build_display_rows(t.get_root()).unwrap();
    assert_eq!(rows.len(), 3);
    assert_eq!(texts(&rows[0]), vec![Some("|".to_string())]);
    assert_eq!(texts(&rows[1]), vec![Some("&".to_string()), Some("c".to_string())]);
    assert_eq!(texts(&rows[2]), vec![None, Some("b".to_string()), None, None]);
}

#[test]
fn test_build_display_rows_pads_gaps() {
    let t = tree(node("r", leaf("l"), node("x", None, leaf("y"))));
    let rows = build_display_rows(t.get_root()).unwrap();
    assert_eq!(texts(&rows[1]), vec![Some("l".to_string()), Some("x".to_string())]);
    assert_eq!(texts(&rows[2]), vec![None, None, None, Some("y".to_string())]);
}

#[test]
fn test_build_display_rows_short_last_row() {
    let t = tree(node("r", node("l", leaf("k"), None), leaf("x")));
    let rows = build_display_rows(t.get_root()).unwrap();
    assert_eq!(texts(&rows[2]), vec![Some("k".to_string()), None, None, None]);
    let t = tree(node("r", node("l", leaf("k"), None), None));
    let rows = build_display_rows(t.get_root()).unwrap();
    assert_eq!(texts(&rows[1]), vec![Some("l".to_string()), None]);
    assert_eq!(texts(&rows[2]), vec![Some("k".to_string()), None]);
}

#[test]
fn test_cell_width() {
    let cell = |s: &str| CellDisplay::with_content(s.to_string());
    assert_eq!(cell_width(&vec![]), 3);
    assert_eq!(cell_width(&vec![vec![CellDisplay::new()]]), 3);
    assert_eq!(cell_width(&vec![vec![cell("a")], vec![cell("ab"), cell("abc")]]), 3);
    assert_eq!(cell_width(&vec![vec![cell("abcd")]]), 5);
    assert_eq!(cell_width(&vec![vec![cell("abcde")], vec![cell("a")]]), 5);
    assert_eq!(cell_width(&vec![vec![cell("abcdef")]]), 7);
    assert_eq!(cell_width(&vec![vec![cell("éé")]]), 5);
}

#[test]
fn test_format_rows_before_trimming() {
    let cell = |s: &str| CellDisplay::with_content(s.to_string());
    let rows = vec![vec![cell("&")], vec![cell("a"), cell("b")]];
    assert_eq!(format_rows(&rows), Ok(vec!["   & ".to_string(), "  / \\".to_string(), " a   b ".to_string()]));
}

#[test]
fn test_format_rows_label_off_centre() {
    let cell = |s: &str| CellDisplay::with_content(s.to_string());
    let rows = vec![vec![cell("r")], vec![cell("ab"), cell("cd")]];
    assert_eq!(format_rows(&rows), Ok(vec!["   r ".to_string(), "  / \\".to_string(), "ab   cd".to_string()]));
}

#[test]
fn test_format_rows_without_rows() {
    assert_eq!(format_rows(&vec![]), Err(OutOfRange));
}

#[test]
fn test_format_rows_too_many_rows() {
    let rows: Vec<Vec<CellDisplay>> = (0..70).map(|_| vec![CellDisplay::new()]).collect();
    assert_eq!(format_rows(&rows), Err(OutOfRange));
}

#[test]
fn test_build_display_rows_too_deep() {
    let mut root = leaf("x");
    for _ in 0..70 {
        root = node("x", None, root);
    }
    assert!(build_display_rows(tree(root).get_root()).is_err());
}

#[test]
fn test_trim_left_whitespace() {
    let mut rows = vec!["   & ".to_string(), "  / \\".to_string(), " a   b ".to_string()];
    assert_eq!(trim_left_whitespace(&mut rows), Ok(()));
    assert_eq!(rows, vec!["  & ", " / \\", "a   b "]);
}

#[test]
fn test_trim_left_whitespace_nothing_to_cut() {
    let mut rows = vec!["  a".to_string(), "b".to_string(), "    ".to_string()];
    assert_eq!(trim_left_whitespace(&mut rows), Ok(()));
    assert_eq!(rows, vec!["  a", "b", "    "]);
    let mut rows: Vec<String> = vec![];
    assert_eq!(trim_left_whitespace(&mut rows), Ok(()));
    assert!(rows.is_empty());
}

#[test]
fn test_trim_left_whitespace_blank_lines() {
    let mut rows = vec!["   ".to_string(), "    ".to_string(), "     ".to_string()];
    assert_eq!(trim_left_whitespace(&mut rows), Ok(()));
    assert_eq!(rows, vec!["", " ", "  "]);
}

#[test]
fn test_trim_left_whitespace_short_blank_line() {
    let mut rows = vec!["   a".to_string(), " ".to_string()];
    assert_eq!(trim_left_whitespace(&mut rows), Err(OutOfRange));
    assert_eq!(rows, vec!["   a", " "]);
}

#[test]
fn test_cell_display_constructors() {
    assert_eq!(CellDisplay::new().str, None);
    assert_eq!(CellDisplay::with_content("x".to_string()).str, Some("x".to_string()));
    assert_eq!(CellDisplay::with_content("x".to_string()).clone().str, Some("x".to_string()));
}
