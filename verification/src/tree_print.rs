//! Box-drawing pictures of label trees.
//!
//! A tree of labels is drawn top down: the label of a node stands centred
//! above a connector line, and the pictures of its children stand side by
//! side below that line. Nodes without a value are not drawn.
//!
//! All widths and columns count characters.

use crate::bin_tree::{BinTree, BinTreeNode};
use crate::diagnostic::{push_spaces, spaces};
use crate::text::{chars_of, string_of};
use vstd::prelude::*;
use vstd::string::*;

verus! {

/// The texts of a list of strings.
pub open spec fn lines_view(lines: Seq<String>) -> Seq<Seq<char>> {
    lines.map_values(|line: String| line@)
}

/// The number of characters from index `from` of `s` up to the next line
/// feed, or to the end where none follows.
pub open spec fn line_len(s: Seq<char>, from: int) -> nat
    decreases s.len() - from,
{
    if from < 0 || from >= s.len() || s[from] == '\n' {
        0
    } else {
        1 + line_len(s, from + 1)
    }
}

/// The lines of `s` from index `from` on.
///
/// A line ends at a line feed, which is not part of it; a carriage return
/// just before that line feed is not part of it either. The last line needs
/// no line feed, and nothing follows a final line feed.
pub open spec fn lines_from(s: Seq<char>, from: int) -> Seq<Seq<char>>
    decreases s.len() - from,
{
    if from < 0 || from >= s.len() {
        Seq::empty()
    } else {
        let end = from + line_len(s, from);
        if end >= s.len() {
            seq![s.subrange(from, s.len() as int)]
        } else if end > from && s[end - 1] == '\r' {
            seq![s.subrange(from, end - 1)] + lines_from(s, end + 1)
        } else {
            seq![s.subrange(from, end)] + lines_from(s, end + 1)
        }
    }
}

/// The lines of the text `s`.
pub open spec fn lines_of(s: Seq<char>) -> Seq<Seq<char>> {
    lines_from(s, 0)
}

/// The lines `lines` with a line feed between each two.
pub open spec fn joined(lines: Seq<Seq<char>>) -> Seq<char>
    decreases lines.len(),
{
    if lines.len() == 0 {
        Seq::empty()
    } else if lines.len() == 1 {
        lines[0]
    } else {
        joined(lines.drop_last()) + seq!['\n'] + lines.last()
    }
}

/// The length of the longest of `lines`, 0 where there is none.
pub open spec fn widest(lines: Seq<Seq<char>>) -> nat
    decreases lines.len(),
{
    if lines.len() == 0 {
        0
    } else {
        let rest = widest(lines.drop_last());
        if lines.last().len() > rest {
            lines.last().len()
        } else {
            rest
        }
    }
}

/// No line is longer than the longest.
pub proof fn lemma_widest(lines: Seq<Seq<char>>, i: int)
    requires
        0 <= i < lines.len(),
    ensures
        lines[i].len() <= widest(lines),
    decreases lines.len(),
{
    if i < lines.len() - 1 {
        lemma_widest(lines.drop_last(), i);
    }
}

/// Splits `text` into its lines.
pub fn split_lines(text: &str) -> (lines: Vec<String>)
    ensures
        lines_view(lines@) == lines_of(text@),
{
    let chars = chars_of(text);
    let len = chars.len();
    let mut lines: Vec<String> = Vec::new();
    let mut from: usize = 0;
    while from < len
        invariant
            from <= len,
            len == chars.len(),
            chars@ == text@,
            lines_of(text@) == lines_view(lines@) + lines_from(text@, from as int),
        decreases len - from,
    {
        let mut end: usize = from;
        while end < len && chars[end] != '\n'
            invariant
                from <= end <= len,
                len == chars.len(),
                chars@ == text@,
                end - from + line_len(text@, end as int) == line_len(text@, from as int),
            decreases len - end,
        {
            end += 1;
        }
        let ghost before = lines@;
        if end >= len {
            lines.push(string_of(&chars, from, len));
            from = len;
        } else if end > from && chars[end - 1] == '\r' {
            lines.push(string_of(&chars, from, end - 1));
            from = end + 1;
        } else {
            lines.push(string_of(&chars, from, end));
            from = end + 1;
        }
        proof {
            let added = lines@.last()@;
            assert(lines_view(lines@) =~= lines_view(before).push(added));
            assert(lines_view(before).push(added) + lines_from(text@, from as int) =~= lines_view(
                before,
            ) + (seq![added] + lines_from(text@, from as int)));
        }
    }
    proof {
        assert(lines_view(lines@) + lines_from(text@, from as int) =~= lines_view(lines@));
    }
    lines
}

/// Puts a line feed between each two of `lines`.
pub fn join_lines(lines: &Vec<String>) -> (text: String)
    ensures
        text@ == joined(lines_view(lines@)),
{
    let mut text = String::new();
    let mut i: usize = 0;
    while i < lines.len()
        invariant
            i <= lines.len(),
            text@ == joined(lines_view(lines@).subrange(0, i as int)),
        decreases lines.len() - i,
    {
        let ghost done = lines_view(lines@).subrange(0, i as int);
        let ghost next = lines_view(lines@).subrange(0, i + 1);
        proof {
            assert(next.drop_last() =~= done);
            assert(next.last() == lines@[i as int]@);
        }
        if i > 0 {
            text.push('\n');
        }
        text.append(lines[i].as_str());
        i += 1;
    }
    proof {
        assert(lines_view(lines@).subrange(0, i as int) =~= lines_view(lines@));
    }
    text
}

/// The length of the longest of `lines`, in characters.
pub fn max_width(lines: &Vec<String>) -> (width: usize)
    ensures
        width == widest(lines_view(lines@)),
{
    let mut width: usize = 0;
    let mut i: usize = 0;
    while i < lines.len()
        invariant
            i <= lines.len(),
            width == widest(lines_view(lines@).subrange(0, i as int)),
        decreases lines.len() - i,
    {
        let ghost next = lines_view(lines@).subrange(0, i + 1);
        proof {
            assert(next.drop_last() =~= lines_view(lines@).subrange(0, i as int));
            assert(next.last() == lines@[i as int]@);
        }
        let count = lines[i].as_str().unicode_len();
        if count > width {
            width = count;
        }
        i += 1;
    }
    proof {
        assert(lines_view(lines@).subrange(0, i as int) =~= lines_view(lines@));
    }
    width
}

pub const H_LINE: char = '─';

pub const V_LINE: char = '│';

pub const RIGHT_BOTTOM: char = '┌';

pub const LEFT_BOTTOM: char = '┐';

pub const TOP_T: char = '┴';

/// A picture: its lines from top to bottom, its width, and the column in
/// which its topmost label is centred.
pub struct Drawing {
    pub lines: Vec<String>,
    pub width: usize,
    pub root_col: usize,
}

/// A picture as a mathematical value.
pub struct Picture {
    pub lines: Seq<Seq<char>>,
    pub width: int,
    pub root_col: int,
}

impl View for Drawing {
    type V = Picture;

    open spec fn view(&self) -> Picture {
        Picture {
            lines: lines_view(self.lines@),
            width: self.width as int,
            root_col: self.root_col as int,
        }
    }
}

/// The layout of a picture left the range of unsigned machine integers: a
/// label is too wide to be centred above its two children, or a width does
/// not fit.
#[derive(Debug, PartialEq, Eq, Clone, Copy)]
pub struct OutOfRange;

/// A run of `n` spaces, none where `n` is not positive.
pub open spec fn blanks(n: int) -> Seq<char> {
    if n > 0 {
        spaces(n as nat)
    } else {
        Seq::empty()
    }
}

/// The line `line` with `left` spaces before it, filled up with spaces to
/// the width `total`.
pub open spec fn framed(line: Seq<char>, left: int, total: int) -> Seq<char> {
    blanks(left) + line + blanks(total - left - line.len())
}

/// Each of `lines` framed in the same way.
pub open spec fn framed_all(lines: Seq<Seq<char>>, left: int, total: int) -> Seq<Seq<char>> {
    Seq::new(lines.len(), |i: int| framed(lines[i], left, total))
}

/// The line that joins a label to its two children: corners above the
/// columns of the children, a tee below the label, and a rule between the
/// corners.
pub open spec fn connector(total: int, left_root: int, right_root: int, center: int) -> Seq<
    char,
> {
    Seq::new(
        total as nat,
        |i: int|
            if i == left_root {
                RIGHT_BOTTOM
            } else if i == right_root {
                LEFT_BOTTOM
            } else if i == center {
                TOP_T
            } else if left_root < i < right_root {
                H_LINE
            } else {
                ' '
            },
    )
}

/// The line that joins a label to its only child: a bar in the column of
/// the child.
pub open spec fn stem(total: int, column: int) -> Seq<char> {
    Seq::new(
        total as nat,
        |i: int|
            if i == column {
                V_LINE
            } else {
                ' '
            },
    )
}

/// Line `i` of the pictures `left` and `right` side by side, one space
/// apart, at the width `total`.
pub open spec fn beside(left: Picture, right: Picture, total: int, i: int) -> Seq<char> {
    (if i < left.lines.len() {
        left.lines[i] + blanks(left.width - left.lines[i].len())
    } else {
        blanks(left.width)
    }) + blanks(1) + (if i < right.lines.len() {
        right.lines[i] + blanks(total - left.width - 1 - right.lines[i].len())
    } else {
        blanks(total - left.width - 1)
    })
}

/// The number of spaces before a label of width `width` above the pictures
/// `left` and `right`: the label is centred between the columns of the two,
/// unless it is wider than both together.
pub open spec fn both_padding(width: int, left: Picture, right: Picture) -> int {
    let center = (left.root_col + (left.width + 1 + right.root_col)) / 2;
    if width <= left.width + 1 + right.width {
        center - width / 2
    } else {
        0
    }
}

/// Whether a label of width `width` can be laid out above the pictures
/// `left` and `right` within unsigned machine integers.
pub open spec fn both_fit(width: int, left: Picture, right: Picture) -> bool {
    &&& left.width + 1 + right.width <= usize::MAX
    &&& left.width + 1 + right.root_col <= usize::MAX
    &&& left.root_col + (left.width + 1 + right.root_col) <= usize::MAX
    &&& both_padding(width, left, right) >= 0
    &&& both_padding(width, left, right) + width <= usize::MAX
}

/// The picture of a label with the lines `label`, the longest `width` wide,
/// above the pictures `left` and `right` of its children.
pub open spec fn above_both(label: Seq<Seq<char>>, width: int, left: Picture, right: Picture)
    -> Picture {
    let children = left.width + 1 + right.width;
    let right_root = left.width + 1 + right.root_col;
    let center = (left.root_col + right_root) / 2;
    let padding = both_padding(width, left, right);
    let total = if children >= padding + width {
        children
    } else {
        padding + width
    };
    let rows = if left.lines.len() >= right.lines.len() {
        left.lines.len()
    } else {
        right.lines.len()
    };
    Picture {
        lines: framed_all(label, padding, total) + seq![
            connector(total, left.root_col, right_root, center),
        ] + Seq::new(rows, |i: int| beside(left, right, total, i)),
        width: total,
        root_col: center,
    }
}

/// The number of spaces before a label of width `width` above the picture
/// `child`: the middle of the label stands above the column of the child.
pub open spec fn one_padding(width: int, child: Picture) -> int {
    if child.root_col > width / 2 {
        child.root_col - width / 2
    } else {
        0
    }
}

/// Whether a label of width `width` can be laid out above the picture
/// `child` within unsigned machine integers.
pub open spec fn one_fits(width: int, child: Picture) -> bool {
    one_padding(width, child) + width <= usize::MAX
}

/// The picture of a label with the lines `label`, the longest `width` wide,
/// above the picture `child` of its only child.
pub open spec fn above_one(label: Seq<Seq<char>>, width: int, child: Picture) -> Picture {
    let padding = one_padding(width, child);
    let total = if padding + width >= child.width {
        padding + width
    } else {
        child.width
    };
    Picture {
        lines: framed_all(label, padding, total) + seq![stem(total, child.root_col)] + Seq::new(
            child.lines.len(),
            |i: int| child.lines[i] + blanks(total - child.lines[i].len()),
        ),
        width: total,
        root_col: child.root_col,
    }
}

/// Whether no line of `picture` is longer than its width, and its column
/// lies within its width.
pub open spec fn shaped(picture: Picture) -> bool {
    &&& 0 <= picture.root_col <= picture.width
    &&& forall|i: int| 0 <= i < picture.lines.len() ==> (#[trigger] picture.lines[i]).len()
        <= picture.width
}

/// The picture of the subtree in `slot`, if it has one.
pub open spec fn picture_in(slot: Option<Box<BinTreeNode<String>>>) -> Option<Picture>
    decreases slot,
{
    match slot {
        Some(node) => picture_of(*node),
        None => None,
    }
}

/// The picture of the tree `node`. A node without a value has none, and
/// hides what is below it. A node with an empty label is drawn as one empty
/// line, and hides what is below it.
pub open spec fn picture_of(node: BinTreeNode<String>) -> Option<Picture>
    decreases node,
{
    match node.value {
        None => None,
        Some(text) => {
            let label = lines_of(text@);
            let width = widest(label) as int;
            if label.len() == 0 {
                Some(Picture { lines: seq![Seq::empty()], width: 0, root_col: 0 })
            } else {
                match (picture_in(node.left), picture_in(node.right)) {
                    (Some(left), Some(right)) => Some(above_both(label, width, left, right)),
                    (Some(child), None) => Some(above_one(label, width, child)),
                    (None, Some(child)) => Some(above_one(label, width, child)),
                    (None, None) => Some(
                        Picture { lines: label, width: width, root_col: width / 2 },
                    ),
                }
            }
        },
    }
}

/// Whether the subtree in `slot`, if there is one, can be laid out.
pub open spec fn fits_in(slot: Option<Box<BinTreeNode<String>>>) -> bool
    decreases slot,
{
    match slot {
        Some(node) => fits(*node),
        None => true,
    }
}

/// Whether the tree `node` can be laid out within unsigned machine
/// integers: its children can, and so can its label above them.
pub open spec fn fits(node: BinTreeNode<String>) -> bool
    decreases node,
{
    match node.value {
        None => true,
        Some(text) => {
            let label = lines_of(text@);
            let width = widest(label) as int;
            label.len() == 0 || {
                &&& fits_in(node.left)
                &&& fits_in(node.right)
                &&& match (picture_in(node.left), picture_in(node.right)) {
                    (Some(left), Some(right)) => both_fit(width, left, right),
                    (Some(child), None) => one_fits(width, child),
                    (None, Some(child)) => one_fits(width, child),
                    (None, None) => true,
                }
            }
        },
    }
}

/// The text that shows the tree with the root `root`.
pub open spec fn tree_text(root: BinTreeNode<String>) -> Seq<char> {
    match picture_of(root) {
        Some(picture) => joined(picture.lines),
        None => "(Empty Tree)"@,
    }
}

/// Frames `line`: `left` spaces, the line, and spaces up to the width `total`.
fn frame_line(line: &str, left: usize, total: usize) -> (text: String)
    requires
        left + line@.len() <= total,
    ensures
        text@ == framed(line@, left as int, total as int),
{
    let mut text = String::new();
    push_spaces(&mut text, left);
    text.append(line);
    push_spaces(&mut text, total - left - line.unicode_len());
    text
}

/// Frames each of `lines` and appends them to `out`.
fn frame_lines(out: &mut Vec<String>, lines: &Vec<String>, left: usize, total: usize)
    requires
        left + widest(lines_view(lines@)) <= total,
    ensures
        lines_view(final(out)@) == lines_view(old(out)@) + framed_all(
            lines_view(lines@),
            left as int,
            total as int,
        ),
{
    let ghost all = framed_all(lines_view(lines@), left as int, total as int);
    let mut i: usize = 0;
    while i < lines.len()
        invariant
            i <= lines.len(),
            left + widest(lines_view(lines@)) <= total,
            all == framed_all(lines_view(lines@), left as int, total as int),
            lines_view(out@) == lines_view(old(out)@) + all.subrange(0, i as int),
        decreases lines.len() - i,
    {
        proof {
            lemma_widest(lines_view(lines@), i as int);
        }
        let ghost before = out@;
        out.push(frame_line(lines[i].as_str(), left, total));
        proof {
            assert(lines_view(out@) =~= lines_view(before).push(all[i as int]));
            assert(all.subrange(0, i + 1) =~= all.subrange(0, i as int).push(all[i as int]));
        }
        i += 1;
    }
    proof {
        assert(all.subrange(0, i as int) =~= all);
    }
}

/// Draws the line that joins a label to its two children.
fn connector_line(total: usize, left_root: usize, right_root: usize, center: usize) -> (text:
    String)
    ensures
        text@ == connector(total as int, left_root as int, right_root as int, center as int),
{
    let mut text = String::new();
    let mut i: usize = 0;
    while i < total
        invariant
            i <= total,
            text@ == connector(
                total as int,
                left_root as int,
                right_root as int,
                center as int,
            ).subrange(0, i as int),
        decreases total - i,
    {
        if i == left_root {
            text.push(RIGHT_BOTTOM);
        } else if i == right_root {
            text.push(LEFT_BOTTOM);
        } else if i == center {
            text.push(TOP_T);
        } else if i > left_root && i < right_root {
            text.push(H_LINE);
        } else {
            text.push(' ');
        }
        i += 1;
    }
    text
}

/// Draws the line that joins a label to its only child.
fn stem_line(total: usize, column: usize) -> (text: String)
    ensures
        text@ == stem(total as int, column as int),
{
    let mut text = String::new();
    let mut i: usize = 0;
    while i < total
        invariant
            i <= total,
            text@ == stem(total as int, column as int).subrange(0, i as int),
        decreases total - i,
    {
        if i == column {
            text.push(V_LINE);
        } else {
            text.push(' ');
        }
        i += 1;
    }
    text
}

/// Draws line `i` of two pictures side by side.
fn beside_line(left: &Drawing, right: &Drawing, total: usize, i: usize) -> (text: String)
    requires
        shaped(left@),
        shaped(right@),
        left.width + 1 + right.width <= total,
    ensures
        text@ == beside(left@, right@, total as int, i as int),
{
    let mut text = String::new();
    if i < left.lines.len() {
        assert(left@.lines[i as int] == left.lines@[i as int]@);
        text.append(left.lines[i].as_str());
        push_spaces(&mut text, left.width - left.lines[i].as_str().unicode_len());
    } else {
        push_spaces(&mut text, left.width);
    }
    push_spaces(&mut text, 1);
    if i < right.lines.len() {
        assert(right@.lines[i as int] == right.lines@[i as int]@);
        text.append(right.lines[i].as_str());
        push_spaces(&mut text, total - left.width - 1 - right.lines[i].as_str().unicode_len());
    } else {
        push_spaces(&mut text, total - left.width - 1);
    }
    text
}

/// Puts a label above the pictures of its two children.
fn combine_both(node_lines: Vec<String>, node_width: usize, left: Drawing, right: Drawing) -> (res:
    Result<Drawing, OutOfRange>)
    requires
        node_width == widest(lines_view(node_lines@)),
        shaped(left@),
        shaped(right@),
    ensures
        match res {
            Ok(drawing) => {
                &&& both_fit(node_width as int, left@, right@)
                &&& drawing@ == above_both(
                    lines_view(node_lines@),
                    node_width as int,
                    left@,
                    right@,
                )
                &&& shaped(drawing@)
            },
            Err(_) => !both_fit(node_width as int, left@, right@),
        },
{
    if left.width >= usize::MAX || right.width > usize::MAX - 1 - left.width {
        return Err(OutOfRange);
    }
    let children = left.width + 1 + right.width;
    let right_root = left.width + 1 + right.root_col;
    if left.root_col > usize::MAX - right_root {
        return Err(OutOfRange);
    }
    let center = (left.root_col + right_root) / 2;
    let padding = if node_width <= children {
        if center < node_width / 2 {
            return Err(OutOfRange);
        }
        center - node_width / 2
    } else {
        0
    };
    if padding > usize::MAX - node_width {
        return Err(OutOfRange);
    }
    let total = if children >= padding + node_width {
        children
    } else {
        padding + node_width
    };
    let ghost picture = above_both(lines_view(node_lines@), node_width as int, left@, right@);
    let mut result: Vec<String> = Vec::new();
    frame_lines(&mut result, &node_lines, padding, total);
    let ghost top = lines_view(result@);
    result.push(connector_line(total, left.root_col, right_root, center));
    let ghost head = lines_view(result@);
    proof {
        assert(top =~= framed_all(lines_view(node_lines@), padding as int, total as int));
        assert(head =~= top.push(connector(total as int, left.root_col as int, right_root as int, center as int)));
    }
    let rows = if left.lines.len() >= right.lines.len() {
        left.lines.len()
    } else {
        right.lines.len()
    };
    let ghost below = Seq::new(rows as nat, |i: int| beside(left@, right@, total as int, i));
    let mut i: usize = 0;
    while i < rows
        invariant
            i <= rows,
            shaped(left@),
            shaped(right@),
            left.width + 1 + right.width <= total,
            below == Seq::new(rows as nat, |i: int| beside(left@, right@, total as int, i)),
            lines_view(result@) == head + below.subrange(0, i as int),
        decreases rows - i,
    {
        let ghost before = result@;
        result.push(beside_line(&left, &right, total, i));
        proof {
            assert(lines_view(result@) =~= lines_view(before).push(below[i as int]));
            assert(below.subrange(0, i + 1) =~= below.subrange(0, i as int).push(below[i as int]));
        }
        i += 1;
    }
    proof {
        assert(below.subrange(0, i as int) =~= below);
        assert(lines_view(result@) =~= picture.lines);
        assert forall|k: int| 0 <= k < picture.lines.len() implies (#[trigger] picture.lines[k]).len()
            <= total by {
            if k < node_lines.len() {
                lemma_widest(lines_view(node_lines@), k);
            }
        }
    }
    Ok(Drawing { lines: result, width: total, root_col: center })
}

/// Puts a label above the picture of its only child.
fn combine_single(node_lines: Vec<String>, node_width: usize, child: Drawing) -> (res: Result<
    Drawing,
    OutOfRange,
>)
    requires
        node_width == widest(lines_view(node_lines@)),
        shaped(child@),
    ensures
        match res {
            Ok(drawing) => {
                &&& one_fits(node_width as int, child@)
                &&& drawing@ == above_one(lines_view(node_lines@), node_width as int, child@)
                &&& shaped(drawing@)
            },
            Err(_) => !one_fits(node_width as int, child@),
        },
{
    let node_center = node_width / 2;
    let connector_pos = child.root_col;
    let padding = if connector_pos > node_center {
        connector_pos - node_center
    } else {
        0
    };
    if padding > usize::MAX - node_width {
        return Err(OutOfRange);
    }
    let total = if padding + node_width >= child.width {
        padding + node_width
    } else {
        child.width
    };
    let ghost picture = above_one(lines_view(node_lines@), node_width as int, child@);
    let mut result: Vec<String> = Vec::new();
    frame_lines(&mut result, &node_lines, padding, total);
    let ghost top = lines_view(result@);
    result.push(stem_line(total, connector_pos));
    let ghost head = lines_view(result@);
    proof {
        assert(top =~= framed_all(lines_view(node_lines@), padding as int, total as int));
        assert(head =~= top.push(stem(total as int, connector_pos as int)));
    }
    let ghost below = Seq::new(
        child@.lines.len(),
        |i: int| child@.lines[i] + blanks(total - child@.lines[i].len()),
    );
    let mut i: usize = 0;
    while i < child.lines.len()
        invariant
            i <= child.lines.len(),
            shaped(child@),
            child.width <= total,
            below == Seq::new(
                child@.lines.len(),
                |i: int| child@.lines[i] + blanks(total - child@.lines[i].len()),
            ),
            lines_view(result@) == head + below.subrange(0, i as int),
        decreases child.lines.len() - i,
    {
        let ghost before = result@;
        assert(child@.lines[i as int] == child.lines@[i as int]@);
        let mut line = String::new();
        line.append(child.lines[i].as_str());
        push_spaces(&mut line, total - child.lines[i].as_str().unicode_len());
        result.push(line);
        proof {
            assert(lines_view(result@) =~= lines_view(before).push(below[i as int]));
            assert(below.subrange(0, i + 1) =~= below.subrange(0, i as int).push(below[i as int]));
        }
        i += 1;
    }
    proof {
        assert(below.subrange(0, i as int) =~= below);
        assert(lines_view(result@) =~= picture.lines);
        assert forall|k: int| 0 <= k < picture.lines.len() implies (#[trigger] picture.lines[k]).len()
            <= total by {
            if k < node_lines.len() {
                lemma_widest(lines_view(node_lines@), k);
            }
        }
    }
    Ok(Drawing { lines: result, width: total, root_col: connector_pos })
}

/// Draws the subtree in `slot`, if there is one.
fn draw_child(slot: &Option<Box<BinTreeNode<String>>>) -> (res: Result<Option<Drawing>, OutOfRange>)
    ensures
        match res {
            Ok(Some(drawing)) => fits_in(*slot) && picture_in(*slot) == Some(drawing@) && shaped(
                drawing@,
            ),
            Ok(None) => fits_in(*slot) && picture_in(*slot) is None,
            Err(_) => !fits_in(*slot),
        },
    decreases slot, 1nat,
{
    match slot {
        Some(node) => draw_subtree(node),
        None => Ok(None),
    }
}

/// Draws the tree `node`.
fn draw_subtree(node: &BinTreeNode<String>) -> (res: Result<Option<Drawing>, OutOfRange>)
    ensures
        match res {
            Ok(Some(drawing)) => fits(*node) && picture_of(*node) == Some(drawing@) && shaped(
                drawing@,
            ),
            Ok(None) => fits(*node) && picture_of(*node) is None,
            Err(_) => !fits(*node),
        },
    decreases node, 0nat,
{
    let node_lines = match &node.value {
        Some(text) => split_lines(text.as_str()),
        None => {
            return Ok(None);
        },
    };
    if node_lines.len() == 0 {
        let mut lines: Vec<String> = Vec::new();
        lines.push(String::new());
        assert(lines_view(lines@) =~= seq![Seq::<char>::empty()]);
        return Ok(Some(Drawing { lines, width: 0, root_col: 0 }));
    }
    let node_width = max_width(&node_lines);
    let left_drawing = match draw_child(&node.left) {
        Ok(drawing) => drawing,
        Err(e) => {
            return Err(e);
        },
    };
    let right_drawing = match draw_child(&node.right) {
        Ok(drawing) => drawing,
        Err(e) => {
            return Err(e);
        },
    };
    match (left_drawing, right_drawing) {
        (Some(left), Some(right)) => match combine_both(node_lines, node_width, left, right) {
            Ok(drawing) => Ok(Some(drawing)),
            Err(e) => Err(e),
        },
        (Some(left), None) => match combine_single(node_lines, node_width, left) {
            Ok(drawing) => Ok(Some(drawing)),
            Err(e) => Err(e),
        },
        (None, Some(right)) => match combine_single(node_lines, node_width, right) {
            Ok(drawing) => Ok(Some(drawing)),
            Err(e) => Err(e),
        },
        (None, None) => {
            proof {
                assert forall|k: int| 0 <= k < node_lines.len() implies (#[trigger] lines_view(
                    node_lines@,
                )[k]).len() <= node_width by {
                    lemma_widest(lines_view(node_lines@), k);
                }
            }
            Ok(Some(Drawing { lines: node_lines, width: node_width, root_col: node_width / 2 }))
        },
    }
}

impl BinTree<String> {
    /// Draws the tree of labels with box characters: each label centred
    /// above its children. A tree whose root has no value is shown as
    /// `(Empty Tree)`.
    pub fn format_tree(&self) -> (res: Result<String, OutOfRange>)
        ensures
            match res {
                Ok(text) => fits(self.root) && text@ == tree_text(self.root),
                Err(_) => !fits(self.root),
            },
    {
        if self.root.value.is_none() {
            return Ok(String::from_str("(Empty Tree)"));
        }
        match draw_subtree(&self.root) {
            Ok(Some(drawing)) => Ok(join_lines(&drawing.lines)),
            Ok(None) => Ok(String::new()),
            Err(e) => Err(e),
        }
    }
}

} // verus!
