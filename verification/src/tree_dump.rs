//! Level-by-level pictures of label trees.
//!
//! The tree is laid on a grid: row `r` of the grid has room for every
//! place that a node `r` steps below the root can take, whether a node
//! stands there or not. Slanted branches join each row to the one above.
//!
//! Cell widths count bytes; positions in a line count characters.

use crate::bin_tree::{BinTree, BinTreeNode};
use crate::diagnostic::{push_spaces, spaces};
use crate::text::{chars_of, string_of};
use crate::tree_print::{blanks, join_lines, joined, lines_view, OutOfRange};
use vstd::arithmetic::power2::{lemma2_to64, lemma_pow2_strictly_increases, lemma_pow2_unfold, pow2};
use vstd::prelude::*;
use vstd::string::*;
use vstd::utf8::encode_utf8;

verus! {

/// One place of the grid: the label of the node that stands there, if any.
pub struct CellDisplay {
    pub str: Option<String>,
}

/// A place of the grid as a mathematical value.
pub type Cell = Option<Seq<char>>;

impl View for CellDisplay {
    type V = Cell;

    open spec fn view(&self) -> Cell {
        match self.str {
            Some(text) => Some(text@),
            None => None,
        }
    }
}

impl Clone for CellDisplay {
    fn clone(&self) -> (copy: Self)
        ensures
            copy@ == self@,
    {
        match &self.str {
            Some(text) => CellDisplay { str: Some(text.clone()) },
            None => CellDisplay { str: None },
        }
    }
}

impl CellDisplay {
    /// An empty place.
    pub fn new() -> (cell: CellDisplay)
        ensures
            cell@ == None::<Seq<char>>,
    {
        CellDisplay { str: None }
    }

    /// A place that holds the label `s`.
    pub fn with_content(s: String) -> (cell: CellDisplay)
        ensures
            cell@ == Some(s@),
    {
        CellDisplay { str: Some(s) }
    }
}

/// The cells of one row of the grid.
pub open spec fn row_view(row: Seq<CellDisplay>) -> Seq<Cell> {
    row.map_values(|cell: CellDisplay| cell@)
}

/// The cells of the grid, row by row.
pub open spec fn rows_view(rows: Seq<Vec<CellDisplay>>) -> Seq<Seq<Cell>> {
    rows.map_values(|row: Vec<CellDisplay>| row_view(row@))
}

/// The cell that shows `node`.
pub open spec fn cell_of(node: BinTreeNode<String>) -> Cell {
    match node.value {
        Some(text) => Some(text@),
        None => None,
    }
}

/// The row `row` with `cell` at place `pos`: the places before it that the
/// row does not have yet are empty.
pub open spec fn placed(row: Seq<Cell>, pos: int, cell: Cell) -> Seq<Cell> {
    (if pos > row.len() {
        row + Seq::new((pos - row.len()) as nat, |i: int| None::<Seq<char>>)
    } else {
        row
    }).push(cell)
}

/// The grid `rows` once the subtree in `slot` is laid on it, its root at
/// place `pos` of row `level`.
///
/// A missing child takes an empty place. Nothing is laid below the last row.
pub open spec fn filled_slot(
    rows: Seq<Seq<Cell>>,
    slot: Option<Box<BinTreeNode<String>>>,
    level: int,
    pos: int,
) -> Seq<Seq<Cell>>
    decreases slot, 1nat,
{
    match slot {
        Some(node) => filled_node(rows, *node, level, pos),
        None => if 0 <= level < rows.len() {
            rows.update(level, placed(rows[level], pos, None))
        } else {
            rows
        },
    }
}

/// The grid `rows` once the tree `node` is laid on it, its root at place
/// `pos` of row `level`: first the node, then its left subtree, then its
/// right subtree.
pub open spec fn filled_node(
    rows: Seq<Seq<Cell>>,
    node: BinTreeNode<String>,
    level: int,
    pos: int,
) -> Seq<Seq<Cell>>
    decreases node, 0nat,
{
    if 0 <= level < rows.len() {
        let here = rows.update(level, placed(rows[level], pos, cell_of(node)));
        let with_left = filled_slot(here, node.left, level + 1, 2 * pos);
        filled_slot(with_left, node.right, level + 1, 2 * pos + 1)
    } else {
        rows
    }
}

/// The grid of the tree with the root `root`: as many rows as the tree is
/// deep.
pub open spec fn display_rows(root: BinTreeNode<String>) -> Seq<Seq<Cell>> {
    filled_node(Seq::new(root.depth(), |i: int| Seq::<Cell>::empty()), root, 0, 0)
}

/// The depth of `node`, unless it exceeds `limit`.
pub fn depth_within(node: &BinTreeNode<String>, limit: usize) -> (depth: Option<usize>)
    ensures
        match depth {
            Some(d) => d == node.depth() && d <= limit,
            None => node.depth() > limit,
        },
    decreases node,
{
    if limit == 0 {
        return None;
    }
    let left_depth = match &node.left {
        Some(child) => match depth_within(child, limit - 1) {
            Some(d) => d,
            None => {
                return None;
            },
        },
        None => 0,
    };
    let right_depth = match &node.right {
        Some(child) => match depth_within(child, limit - 1) {
            Some(d) => d,
            None => {
                return None;
            },
        },
        None => 0,
    };
    if left_depth >= right_depth {
        Some(left_depth + 1)
    } else {
        Some(right_depth + 1)
    }
}

/// Puts `cell` at place `pos` of row `level` of the grid.
fn place(rows: &mut Vec<Vec<CellDisplay>>, level: usize, pos: usize, cell: CellDisplay)
    requires
        level < old(rows).len(),
    ensures
        final(rows).len() == old(rows).len(),
        rows_view(final(rows)@) == rows_view(old(rows)@).update(
            level as int,
            placed(rows_view(old(rows)@)[level as int], pos as int, cell@),
        ),
{
    let ghost before = rows_view(rows@);
    let mut row: Vec<CellDisplay> = Vec::new();
    std::mem::swap(&mut row, &mut rows[level]);
    let ghost start = row_view(row@);
    assert(start == before[level as int]);
    while pos > row.len()
        invariant
            row_view(row@) == start + Seq::new(
                (row.len() - start.len()) as nat,
                |i: int| None::<Seq<char>>,
            ),
            start.len() <= row.len(),
            row.len() <= pos || row.len() == start.len(),
        decreases pos - row.len(),
    {
        let ghost old_row = row_view(row@);
        row.push(CellDisplay::new());
        assert(row_view(row@) =~= old_row.push(None));
    }
    let ghost padded = row_view(row@);
    row.push(cell);
    assert(row_view(row@) =~= padded.push(cell@));
    assert(row_view(row@) =~= placed(start, pos as int, cell@));
    rows.set(level, row);
    assert(rows_view(rows@) =~= before.update(level as int, placed(start, pos as int, cell@)));
}

/// Lays the subtree in `slot` on the grid.
fn fill_slot(
    rows: &mut Vec<Vec<CellDisplay>>,
    slot: &Option<Box<BinTreeNode<String>>>,
    level: usize,
    pos: usize,
)
    requires
        pos < pow2(level as nat),
        pow2(old(rows).len() as nat) <= usize::MAX,
        level <= old(rows).len(),
    ensures
        final(rows).len() == old(rows).len(),
        rows_view(final(rows)@) == filled_slot(
            rows_view(old(rows)@),
            *slot,
            level as int,
            pos as int,
        ),
    decreases slot, 1nat,
{
    match slot {
        Some(node) => fill_node(rows, node, level, pos),
        None => {
            if level < rows.len() {
                place(rows, level, pos, CellDisplay::new());
            }
        },
    }
}

/// Lays the tree `node` on the grid.
fn fill_node(rows: &mut Vec<Vec<CellDisplay>>, node: &BinTreeNode<String>, level: usize, pos: usize)
    requires
        pos < pow2(level as nat),
        pow2(old(rows).len() as nat) <= usize::MAX,
        level <= old(rows).len(),
    ensures
        final(rows).len() == old(rows).len(),
        rows_view(final(rows)@) == filled_node(
            rows_view(old(rows)@),
            *node,
            level as int,
            pos as int,
        ),
    decreases node, 0nat,
{
    if level >= rows.len() {
        return ;
    }
    let cell = match &node.value {
        Some(text) => CellDisplay::with_content(text.clone()),
        None => CellDisplay::new(),
    };
    place(rows, level, pos, cell);
    proof {
        lemma_pow2_unfold((level + 1) as nat);
        if level + 1 < rows.len() {
            lemma_pow2_strictly_increases((level + 1) as nat, rows.len() as nat);
        }
        assert(2 * pos + 1 < pow2((level + 1) as nat) <= usize::MAX);
    }
    fill_slot(rows, &node.left, level + 1, 2 * pos);
    fill_slot(rows, &node.right, level + 1, 2 * pos + 1);
}

/// Lays the tree `root`, which is `depth` deep, on an empty grid.
fn lay_out(root: &BinTreeNode<String>, depth: usize) -> (rows: Vec<Vec<CellDisplay>>)
    requires
        depth == root.depth(),
        pow2(depth as nat) <= usize::MAX,
    ensures
        rows.len() == depth,
        rows_view(rows@) == display_rows(*root),
{
    let mut rows: Vec<Vec<CellDisplay>> = Vec::new();
    let mut i: usize = 0;
    while i < depth
        invariant
            i <= depth,
            rows.len() == i,
            rows_view(rows@) == Seq::new(i as nat, |k: int| Seq::<Cell>::empty()),
        decreases depth - i,
    {
        let ghost before = rows_view(rows@);
        let row: Vec<CellDisplay> = Vec::new();
        assert(row_view(row@) =~= Seq::<Cell>::empty());
        rows.push(row);
        assert(rows_view(rows@) =~= before.push(Seq::<Cell>::empty()));
        i += 1;
    }
    proof {
        lemma2_to64();
    }
    fill_node(&mut rows, root, 0, 0);
    rows
}

/// Two to the power of `exponent`, unless that exceeds the largest integer.
fn checked_power_of_two(exponent: usize) -> (power: Option<usize>)
    ensures
        match power {
            Some(p) => p == pow2(exponent as nat),
            None => pow2(exponent as nat) > usize::MAX,
        },
{
    let mut power: usize = 1;
    let mut i: usize = 0;
    proof {
        lemma2_to64();
    }
    while i < exponent
        invariant
            i <= exponent,
            power == pow2(i as nat),
        decreases exponent - i,
    {
        proof {
            lemma_pow2_unfold((i + 1) as nat);
            if i + 1 < exponent {
                lemma_pow2_strictly_increases((i + 1) as nat, exponent as nat);
            }
        }
        if power > usize::MAX / 2 {
            return None;
        }
        power = power * 2;
        i += 1;
    }
    Some(power)
}

/// Builds the grid of the tree `root`, unless the tree is so deep that the
/// places of a row cannot be counted in an unsigned machine integer.
///
/// Row `level` holds the nodes that stand `level` steps below the root,
/// each at its place (`lemma_display_rows`).
pub fn build_display_rows(root: &BinTreeNode<String>) -> (res: Result<
    Vec<Vec<CellDisplay>>,
    OutOfRange,
>)
    ensures
        match res {
            Ok(rows) => {
                &&& pow2(root.depth()) <= usize::MAX
                &&& rows.len() == root.depth()
                &&& rows_view(rows@) == display_rows(*root)
            },
            Err(_) => pow2(root.depth()) > usize::MAX,
        },
{
    let depth = match depth_within(root, 64) {
        Some(depth) => depth,
        None => {
            proof {
                lemma2_to64();
                lemma_pow2_strictly_increases(64, root.depth());
            }
            return Err(OutOfRange);
        },
    };
    match checked_power_of_two(depth) {
        Some(_) => Ok(lay_out(root, depth)),
        None => Err(OutOfRange),
    }
}

/// The number of bytes that the text `text` takes.
pub open spec fn byte_len(text: Seq<char>) -> nat {
    encode_utf8(text).len()
}

/// The number of bytes of the longest label in `row`, 0 where it has none.
pub open spec fn longest_cell(row: Seq<Cell>) -> nat
    decreases row.len(),
{
    if row.len() == 0 {
        0
    } else {
        let rest = longest_cell(row.drop_last());
        match row.last() {
            Some(text) => if byte_len(text) > rest {
                byte_len(text)
            } else {
                rest
            },
            None => rest,
        }
    }
}

/// The number of bytes of the longest label in `rows`, 0 where there is none.
pub open spec fn longest_label(rows: Seq<Seq<Cell>>) -> nat
    decreases rows.len(),
{
    if rows.len() == 0 {
        0
    } else {
        let rest = longest_label(rows.drop_last());
        if longest_cell(rows.last()) > rest {
            longest_cell(rows.last())
        } else {
            rest
        }
    }
}

/// The width of `inner` made odd.
pub open spec fn odd_width(inner: nat) -> nat {
    if inner % 2 == 0 {
        inner + 1
    } else {
        inner
    }
}

/// The width of every cell of the grid: that of the longest label, 3 at
/// least, and odd, so that a label has a middle.
pub open spec fn cell_width_of(rows: Seq<Seq<Cell>>) -> nat {
    odd_width(
        if longest_label(rows) > 3 {
            longest_label(rows)
        } else {
            3
        },
    )
}

/// No label of a row is longer than the longest.
pub proof fn lemma_longest_cell(row: Seq<Cell>, c: int)
    requires
        0 <= c < row.len(),
    ensures
        row[c] matches Some(text) ==> byte_len(text) <= longest_cell(row),
    decreases row.len(),
{
    if c < row.len() - 1 {
        lemma_longest_cell(row.drop_last(), c);
    }
}

/// No row of a grid has a label longer than the longest of the grid.
pub proof fn lemma_longest_label(rows: Seq<Seq<Cell>>, r: int)
    requires
        0 <= r < rows.len(),
    ensures
        longest_cell(rows[r]) <= longest_label(rows),
    decreases rows.len(),
{
    if r < rows.len() - 1 {
        lemma_longest_label(rows.drop_last(), r);
    }
}

/// The number of bytes of the longest label in `row`.
fn longest_in_row(row: &Vec<CellDisplay>) -> (longest: usize)
    ensures
        longest == longest_cell(row_view(row@)),
{
    let mut longest: usize = 0;
    let mut c: usize = 0;
    while c < row.len()
        invariant
            c <= row.len(),
            longest == longest_cell(row_view(row@).subrange(0, c as int)),
        decreases row.len() - c,
    {
        proof {
            let next = row_view(row@).subrange(0, c + 1);
            assert(next.drop_last() =~= row_view(row@).subrange(0, c as int));
            assert(next.last() == row@[c as int]@);
        }
        if let Some(content) = &row[c].str {
            let len = content.as_str().as_bytes().len();
            if len > longest {
                longest = len;
            }
        }
        c += 1;
    }
    proof {
        assert(row_view(row@).subrange(0, c as int) =~= row_view(row@));
    }
    longest
}

/// The width of every cell of the grid `rows`.
pub fn cell_width(rows: &Vec<Vec<CellDisplay>>) -> (width: usize)
    ensures
        width == cell_width_of(rows_view(rows@)),
        width >= 3,
        width % 2 == 1,
{
    let mut longest: usize = 0;
    let mut r: usize = 0;
    while r < rows.len()
        invariant
            r <= rows.len(),
            longest == longest_label(rows_view(rows@).subrange(0, r as int)),
        decreases rows.len() - r,
    {
        proof {
            let next = rows_view(rows@).subrange(0, r + 1);
            assert(next.drop_last() =~= rows_view(rows@).subrange(0, r as int));
            assert(next.last() == row_view(rows@[r as int]@));
        }
        let in_row = longest_in_row(&rows[r]);
        if in_row > longest {
            longest = in_row;
        }
        r += 1;
    }
    proof {
        assert(rows_view(rows@).subrange(0, r as int) =~= rows_view(rows@));
    }
    let mut width: usize = if longest > 3 {
        longest
    } else {
        3
    };
    if width % 2 == 0 {
        width += 1;
    }
    width
}

/// The texts `piece(0)` to `piece(count - 1)` one after another.
pub open spec fn pieces(count: nat, piece: spec_fn(int) -> Seq<char>) -> Seq<char>
    decreases count,
{
    if count == 0 {
        Seq::empty()
    } else {
        pieces((count - 1) as nat, piece) + piece(count - 1)
    }
}

/// The cell at place `c` of `row` at the width `width`: its label between
/// spaces, or spaces alone where the place is empty or beyond the row. A
/// label that cannot stand in the middle stands one byte to the left at an
/// even place, and one to the right at an odd place.
pub open spec fn cell_text(row: Seq<Cell>, c: int, width: int) -> Seq<char> {
    if 0 <= c < row.len() && row[c] is Some {
        let text = row[c]->0;
        let total = width - byte_len(text);
        let small = total / 2;
        let large = total - small;
        if c % 2 == 0 {
            blanks(small) + text + blanks(large)
        } else {
            blanks(large) + text + blanks(small)
        }
    } else {
        blanks(width)
    }
}

/// The cell at place `c` of a content line with the space before it:
/// `left_pad` before the first cell, and twice that and one more between
/// two cells.
pub open spec fn content_piece(row: Seq<Cell>, c: int, left_pad: int, width: int) -> Seq<char> {
    blanks(
        if c > 0 {
            left_pad * 2 + 1
        } else {
            left_pad
        },
    ) + cell_text(row, c, width)
}

/// The line that shows `count` places of `row`.
pub open spec fn content_line(row: Seq<Cell>, count: nat, left_pad: int, width: int) -> Seq<
    char,
> {
    pieces(count, |c: int| content_piece(row, c, left_pad, width))
}

/// The stretch of a branch line above place `c` of `row`: a slash that
/// leans to the right above a label at an even place, one that leans to the
/// left above a label at an odd place, and spaces around it.
pub open spec fn branch_piece(row: Seq<Cell>, c: int, left_space: int, right_space: int) -> Seq<
    char,
> {
    if 0 <= c < row.len() {
        if c % 2 == 0 {
            blanks(
                if c > 0 {
                    left_space * 2 + 1
                } else {
                    left_space
                },
            ) + seq![
                if row[c] is Some {
                    '/'
                } else {
                    ' '
                },
            ] + blanks(right_space + 1)
        } else {
            blanks(right_space) + seq![
                if row[c] is Some {
                    '\\'
                } else {
                    ' '
                },
            ]
        }
    } else {
        blanks(left_space + right_space + 1)
    }
}

/// One line of branches above `count` places of `row`.
pub open spec fn branch_line(row: Seq<Cell>, count: nat, left_space: int, right_space: int)
    -> Seq<char> {
    pieces(count, |c: int| branch_piece(row, c, left_space, right_space))
}

/// Writes the cell at place `c` of `row`.
fn push_cell(out: &mut String, row: &Vec<CellDisplay>, c: usize, width: usize)
    requires
        longest_cell(row_view(row@)) <= width,
    ensures
        final(out)@ == old(out)@ + cell_text(row_view(row@), c as int, width as int),
{
    if c < row.len() {
        assert(row_view(row@)[c as int] == row@[c as int]@);
        if let Some(text) = &row[c].str {
            proof {
                lemma_longest_cell(row_view(row@), c as int);
            }
            let total_padding = width - text.as_str().as_bytes().len();
            let left_padding = total_padding / 2;
            let right_padding = total_padding - left_padding;
            let (left_pad, right_pad) = if c % 2 == 0 {
                (left_padding, right_padding)
            } else {
                (right_padding, left_padding)
            };
            push_spaces(out, left_pad);
            out.append(text.as_str());
            push_spaces(out, right_pad);
            assert(out@ =~= old(out)@ + cell_text(row_view(row@), c as int, width as int));
        } else {
            push_spaces(out, width);
        }
    } else {
        push_spaces(out, width);
    }
}

/// Writes the line that shows `count` places of `row`.
fn content_line_text(row: &Vec<CellDisplay>, count: usize, left_pad: usize, width: usize) -> (text:
    String)
    requires
        longest_cell(row_view(row@)) <= width,
        left_pad * 2 + 1 <= usize::MAX,
    ensures
        text@ == content_line(row_view(row@), count as nat, left_pad as int, width as int),
{
    let ghost piece = |c: int| content_piece(row_view(row@), c, left_pad as int, width as int);
    let mut text = String::new();
    let mut c: usize = 0;
    while c < count
        invariant
            c <= count,
            longest_cell(row_view(row@)) <= width,
            left_pad * 2 + 1 <= usize::MAX,
            piece == |c: int| content_piece(row_view(row@), c, left_pad as int, width as int),
            text@ == pieces(c as nat, piece),
        decreases count - c,
    {
        let ghost before = text@;
        if c > 0 {
            push_spaces(&mut text, left_pad * 2 + 1);
        } else {
            push_spaces(&mut text, left_pad);
        }
        push_cell(&mut text, row, c, width);
        assert(text@ =~= before + piece(c as int));
        c += 1;
    }
    text
}

/// Writes one line of branches above `count` places of `row`.
fn branch_line_text(row: &Vec<CellDisplay>, count: usize, left_space: usize, right_space: usize)
    -> (text: String)
    requires
        left_space * 2 + 1 <= usize::MAX,
        left_space + right_space + 1 <= usize::MAX,
    ensures
        text@ == branch_line(row_view(row@), count as nat, left_space as int, right_space as int),
{
    let ghost piece = |c: int|
        branch_piece(row_view(row@), c, left_space as int, right_space as int);
    let mut text = String::new();
    let mut c: usize = 0;
    while c < count
        invariant
            c <= count,
            left_space * 2 + 1 <= usize::MAX,
            left_space + right_space + 1 <= usize::MAX,
            piece == |c: int|
                branch_piece(row_view(row@), c, left_space as int, right_space as int),
            text@ == pieces(c as nat, piece),
        decreases count - c,
    {
        let ghost before = text@;
        if c < row.len() {
            assert(row_view(row@)[c as int] == row@[c as int]@);
            if c % 2 == 0 {
                push_spaces(
                    &mut text,
                    if c > 0 {
                        left_space * 2 + 1
                    } else {
                        left_space
                    },
                );
                if row[c].str.is_some() {
                    text.push('/');
                } else {
                    text.push(' ');
                }
                push_spaces(&mut text, right_space + 1);
            } else {
                push_spaces(&mut text, right_space);
                if row[c].str.is_some() {
                    text.push('\\');
                } else {
                    text.push(' ');
                }
            }
        } else {
            push_spaces(&mut text, left_space + right_space + 1);
        }
        assert(text@ =~= before + piece(c as int));
        c += 1;
    }
    text
}

/// The number of branch lines above level `r`, counted from the bottom:
/// half the room of the subtree below a place of that level, less one.
pub open spec fn branch_space(r: nat, width: nat) -> int {
    pow2(r) * (width + 1) / 2 - 1
}

/// The space before the first cell of level `r`, counted from the bottom.
pub open spec fn left_padding(r: nat, width: nat) -> int
    decreases r,
{
    if r == 0 {
        0
    } else {
        left_padding((r - 1) as nat, width) + branch_space((r - 1) as nat, width) + 1
    }
}

/// The width of the grid: the room of the places of its last row.
pub open spec fn grid_width(depth: nat, width: nat) -> int {
    (pow2((depth - 1) as nat) * (width + 1)) as int
}

/// The space to the right of a slash on branch line `j` above a level with
/// the room `space`: it shrinks line by line, to nothing.
pub open spec fn right_space_at(space: int, j: int) -> int {
    if space - 1 - j > 0 {
        space - 1 - j
    } else {
        0
    }
}

/// The lines of level `r`, counted from the bottom, from its content line
/// upwards: the content line, then, unless the level is the top, the lines
/// of the branches that lead up from it.
pub open spec fn level_lines(rows: Seq<Seq<Cell>>, width: nat, r: nat) -> Seq<Seq<char>> {
    let row = rows[rows.len() - 1 - r];
    let count = pow2((rows.len() - 1 - r) as nat);
    let space = branch_space(r, width);
    seq![content_line(row, count, left_padding(r, width), width as int)] + if r + 1
        < rows.len() {
        Seq::new(
            space as nat,
            |j: int| branch_line(row, count, space + 1 + j, right_space_at(space, j)),
        )
    } else {
        Seq::empty()
    }
}

/// The lines of the lowest `n` levels, from the bottom line upwards.
pub open spec fn lines_below(rows: Seq<Seq<Cell>>, width: nat, n: nat) -> Seq<Seq<char>>
    decreases n,
{
    if n == 0 {
        Seq::empty()
    } else {
        lines_below(rows, width, (n - 1) as nat) + level_lines(rows, width, (n - 1) as nat)
    }
}

/// The lines of the grid `rows` from top to bottom.
pub open spec fn formatted_rows(rows: Seq<Seq<Cell>>) -> Seq<Seq<char>> {
    lines_below(rows, cell_width_of(rows), rows.len()).reverse()
}

/// The room of a level is a power of two times half the room of a cell.
proof fn lemma_level_room(r: nat, width: nat)
    requires
        width % 2 == 1,
    ensures
        branch_space(r, width) + 1 == pow2(r) * ((width + 1) / 2),
        left_padding(r, width) == (pow2(r) - 1) * ((width + 1) / 2),
        pow2(r) >= 1,
    decreases r,
{
    let half = (width + 1) / 2;
    vstd::arithmetic::power2::lemma_pow2_pos(r);
    assert(width + 1 == 2 * half);
    assert(pow2(r) * (width + 1) == 2 * (pow2(r) * half)) by (nonlinear_arith)
        requires
            width + 1 == 2 * half,
    ;
    if r > 0 {
        lemma_level_room((r - 1) as nat, width);
        lemma_pow2_unfold(r);
        let below = pow2((r - 1) as nat);
        assert(pow2(r) == 2 * below);
        assert(left_padding(r, width) == (below - 1) * half + below * half);
        assert((below - 1) * half + below * half == (2 * below - 1) * half) by (nonlinear_arith);
        assert((pow2(r) - 1) * half == (2 * below - 1) * half);
    } else {
        lemma2_to64();
        let none = pow2(r) - 1;
        assert(none == 0);
        assert(none * half == 0) by (nonlinear_arith)
            requires
                none == 0,
        ;
    }
}

/// At every level of a grid, the spaces of the layout stay within the
/// width of the grid.
proof fn lemma_level_bounds(depth: nat, r: nat, width: nat)
    requires
        width % 2 == 1,
        width >= 3,
        r < depth,
    ensures
        1 <= branch_space(r, width) < grid_width(depth, width),
        pow2(r) <= pow2((depth - 1) as nat) <= grid_width(depth, width),
        width + 1 <= grid_width(depth, width),
        0 <= left_padding(r, width) < grid_width(depth, width),
        pow2(r) * (width + 1) <= grid_width(depth, width),
        2 * (branch_space(r, width) + 1) <= grid_width(depth, width),
        2 * left_padding(r, width) < grid_width(depth, width),
{
    let half = (width + 1) / 2;
    let top = pow2((depth - 1) as nat);
    lemma_level_room(r, width);
    vstd::arithmetic::power2::lemma_pow2_pos(r);
    if r < depth - 1 {
        lemma_pow2_strictly_increases(r, (depth - 1) as nat);
    }
    assert(pow2(r) <= top);
    assert(width + 1 == 2 * half);
    assert(half >= 2);
    vstd::arithmetic::power2::lemma_pow2_pos((depth - 1) as nat);
    assert(top * (width + 1) >= top && top * (width + 1) >= width + 1) by (nonlinear_arith)
        requires
            top >= 1,
            width + 1 >= 1,
    ;
    assert(pow2(r) * half >= 2) by (nonlinear_arith)
        requires
            pow2(r) >= 1,
            half >= 2,
    ;
    assert(pow2(r) * half <= top * half) by (nonlinear_arith)
        requires
            pow2(r) <= top,
            half >= 1,
    ;
    assert(pow2(r) * half >= 1) by (nonlinear_arith)
        requires
            pow2(r) >= 1,
            half >= 1,
    ;
    assert(top * (width + 1) == 2 * (top * half)) by (nonlinear_arith)
        requires
            width + 1 == 2 * half,
    ;
    assert(pow2(r) * (width + 1) == 2 * (pow2(r) * half)) by (nonlinear_arith)
        requires
            width + 1 == 2 * half,
    ;
    assert((pow2(r) - 1) * half == pow2(r) * half - half) by (nonlinear_arith);
}

/// Turns the order of `lines` around.
fn reversed(lines: Vec<String>) -> (turned: Vec<String>)
    ensures
        lines_view(turned@) == lines_view(lines@).reverse(),
{
    let ghost all = lines_view(lines@);
    let mut rest = lines;
    let mut turned: Vec<String> = Vec::new();
    while rest.len() > 0
        invariant
            rest.len() + turned.len() == all.len(),
            lines_view(rest@) == all.subrange(0, rest.len() as int),
            forall|i: int|
                0 <= i < turned.len() ==> (#[trigger] turned@[i])@ == all[all.len() - 1 - i],
        decreases rest.len(),
    {
        let ghost before = lines_view(rest@);
        let line = rest.pop().unwrap();
        assert(line@ == before[before.len() - 1]);
        assert(lines_view(rest@) =~= all.subrange(0, rest.len() as int));
        turned.push(line);
    }
    assert(lines_view(turned@) =~= all.reverse());
    turned
}

/// Writes the lines of the grid `rows` from top to bottom, with cells of
/// the width `cell_width`; `places` is the number of places of the last row.
fn format_grid(rows: &Vec<Vec<CellDisplay>>, cell_width: usize, places: usize) -> (lines: Vec<
    String,
>)
    requires
        rows.len() >= 1,
        places == pow2((rows.len() - 1) as nat),
        cell_width == cell_width_of(rows_view(rows@)),
        4 * grid_width(rows.len() as nat, cell_width as nat) <= usize::MAX,
    ensures
        lines_view(lines@) == formatted_rows(rows_view(rows@)),
{
    let row_count = rows.len();
    let ghost grid = rows_view(rows@);
    let ghost width = cell_width as nat;
    proof {
        lemma_level_bounds(row_count as nat, (row_count - 1) as nat, width);
        lemma2_to64();
    }
    let mut row_elem_count = places;
    let mut scale: usize = 1;
    let mut left_pad: usize = 0;
    let mut bottom_up: Vec<String> = Vec::new();
    let mut r: usize = 0;
    while r < row_count
        invariant
            r <= row_count,
            row_count == rows.len(),
            row_count >= 1,
            grid == rows_view(rows@),
            width == cell_width,
            width == cell_width_of(grid),
            width >= 3,
            width % 2 == 1,
            4 * grid_width(row_count as nat, width) <= usize::MAX,
            r < row_count ==> row_elem_count == pow2((row_count - 1 - r) as nat),
            r < row_count ==> scale == pow2(r as nat),
            r < row_count ==> left_pad == left_padding(r as nat, width),
            lines_view(bottom_up@) == lines_below(grid, width, r as nat),
        decreases row_count - r,
    {
        let row_index = row_count - r - 1;
        let cd_row = &rows[row_index];
        proof {
            lemma_level_bounds(row_count as nat, r as nat, width);
            lemma_level_room(r as nat, width);
            lemma_longest_label(grid, row_index as int);
            assert(grid[row_index as int] == row_view(cd_row@));
        }
        let space = scale * (cell_width + 1) / 2 - 1;
        let ghost done = lines_view(bottom_up@);
        let ghost level = level_lines(grid, width, r as nat);
        let content = content_line_text(cd_row, row_elem_count, left_pad, cell_width);
        bottom_up.push(content);
        assert(lines_view(bottom_up@) =~= done.push(level[0]));
        if r + 1 < row_count {
            let mut left_space = space + 1;
            let mut right_space = space - 1;
            let mut j: usize = 0;
            while j < space
                invariant
                    j <= space,
                    space == branch_space(r as nat, width),
                    2 * (space + 1) <= grid_width(row_count as nat, width),
                    4 * grid_width(row_count as nat, width) <= usize::MAX,
                    left_space == space + 1 + j,
                    right_space == right_space_at(space as int, j as int),
                    r + 1 < row_count,
                    row_count == rows.len(),
                    row_index == row_count - r - 1,
                    grid == rows_view(rows@),
                    cd_row == &rows[row_index as int],
                    row_elem_count == pow2((row_count - 1 - r) as nat),
                    level == level_lines(grid, width, r as nat),
                    level.len() == 1 + space,
                    lines_view(bottom_up@) == done + level.subrange(0, 1 + j),
                decreases space - j,
            {
                let ghost before = lines_view(bottom_up@);
                bottom_up.push(branch_line_text(cd_row, row_elem_count, left_space, right_space));
                proof {
                    assert(grid[row_index as int] == row_view(cd_row@));
                    assert(lines_view(bottom_up@) =~= before.push(level[1 + j]));
                    assert(level.subrange(0, 2 + j) =~= level.subrange(0, 1 + j).push(
                        level[1 + j],
                    ));
                }
                left_space += 1;
                if right_space > 0 {
                    right_space -= 1;
                }
                j += 1;
            }
            proof {
                assert(level.subrange(0, 1 + j) =~= level);
                lemma_level_bounds(row_count as nat, (r + 1) as nat, width);
                lemma_pow2_unfold((r + 1) as nat);
                lemma_pow2_unfold((row_count - 1 - r) as nat);
            }
            left_pad += space + 1;
            row_elem_count /= 2;
            scale *= 2;
        } else {
            assert(level =~= seq![level[0]]);
            assert(done.push(level[0]) =~= done + level);
        }
        r += 1;
    }
    reversed(bottom_up)
}

/// The number of spaces in `line` from index `from` up to the next other
/// character, or to the end.
pub open spec fn spaces_from(line: Seq<char>, from: int) -> nat
    decreases line.len() - from,
{
    if from < 0 || from >= line.len() || line[from] != ' ' {
        0
    } else {
        1 + spaces_from(line, from + 1)
    }
}

/// The number of spaces before the first other character of `line`, or
/// the length of a line of spaces.
pub open spec fn leading_spaces(line: Seq<char>) -> nat {
    spaces_from(line, 0)
}

/// Whether `line` holds a character other than a space.
pub open spec fn has_ink(line: Seq<char>) -> bool {
    leading_spaces(line) < line.len()
}

/// Whether some line starts with a character other than a space.
pub open spec fn flush_left(lines: Seq<Seq<char>>) -> bool {
    exists|i: int| 0 <= i < lines.len() && has_ink(#[trigger] lines[i]) && leading_spaces(lines[i]) == 0
}

/// The smallest of `start` and the numbers of leading spaces of those of
/// the first `n` lines that hold another character.
pub open spec fn margin_after(lines: Seq<Seq<char>>, n: nat, start: nat) -> nat
    decreases n,
{
    if n == 0 {
        start
    } else {
        let rest = margin_after(lines, (n - 1) as nat, start);
        let line = lines[n - 1];
        if has_ink(line) && leading_spaces(line) < rest {
            leading_spaces(line)
        } else {
            rest
        }
    }
}

/// The number of columns that all lines can lose on the left: the fewest
/// leading spaces of a line that holds another character, and no more than
/// the first line has bytes.
pub open spec fn margin(lines: Seq<Seq<char>>) -> nat {
    margin_after(lines, lines.len(), byte_len(lines[0]))
}

/// Whether the margin can be cut off every line: a line of spaces alone
/// must be as long as the margin.
pub open spec fn trimmable(lines: Seq<Seq<char>>) -> bool {
    lines.len() == 0 || flush_left(lines) || forall|i: int|
        0 <= i < lines.len() ==> leading_spaces(#[trigger] lines[i]) >= margin(lines)
}

/// The lines without their common margin. Nothing is cut where a line
/// starts with a character other than a space.
pub open spec fn trimmed(lines: Seq<Seq<char>>) -> Seq<Seq<char>> {
    if lines.len() == 0 || flush_left(lines) {
        lines
    } else {
        Seq::new(lines.len(), |i: int| lines[i].skip(margin(lines) as int))
    }
}

/// Counts the spaces before the first other character of `line`.
fn count_leading_spaces(line: &Vec<char>) -> (count: usize)
    ensures
        count == leading_spaces(line@),
        count <= line.len(),
{
    let mut count: usize = 0;
    while count < line.len() && line[count] == ' '
        invariant
            count <= line.len(),
            count + spaces_from(line@, count as int) == spaces_from(line@, 0),
        decreases line.len() - count,
    {
        count += 1;
    }
    count
}

/// Cuts the common margin off `rows`, where that can be done; else leaves
/// them as they are.
pub fn trim_left_whitespace(rows: &mut Vec<String>) -> (res: Result<(), OutOfRange>)
    ensures
        match res {
            Ok(_) => trimmable(lines_view(old(rows)@)) && lines_view(final(rows)@) == trimmed(
                lines_view(old(rows)@),
            ),
            Err(_) => !trimmable(lines_view(old(rows)@)) && final(rows)@ == old(rows)@,
        },
{
    if rows.len() == 0 {
        return Ok(());
    }
    let ghost lines = lines_view(rows@);
    assert(lines[0] == rows@[0]@);
    let mut min_space: usize = rows[0].as_str().as_bytes().len();
    let mut i: usize = 0;
    while i < rows.len()
        invariant
            i <= rows.len(),
            rows@ == old(rows)@,
            lines == lines_view(rows@),
            min_space == margin_after(lines, i as nat, byte_len(lines[0])),
            forall|k: int|
                0 <= k < i ==> !(has_ink(#[trigger] lines[k]) && leading_spaces(lines[k]) == 0),
        decreases rows.len() - i,
    {
        assert(lines[i as int] == rows@[i as int]@);
        let row = chars_of(rows[i].as_str());
        let first_non_space = count_leading_spaces(&row);
        if first_non_space < row.len() {
            if first_non_space == 0 {
                return Ok(());
            }
            if first_non_space < min_space {
                min_space = first_non_space;
            }
        }
        i += 1;
    }
    let mut cut: Vec<String> = Vec::new();
    let mut i: usize = 0;
    while i < rows.len()
        invariant
            i <= rows.len(),
            rows@ == old(rows)@,
            lines == lines_view(rows@),
            !flush_left(lines),
            min_space == margin(lines),
            forall|k: int| 0 <= k < i ==> leading_spaces(#[trigger] lines[k]) >= min_space,
            lines_view(cut@) == Seq::new(i as nat, |k: int| lines[k].skip(min_space as int)),
        decreases rows.len() - i,
    {
        assert(lines[i as int] == rows@[i as int]@);
        let row = chars_of(rows[i].as_str());
        let leading = count_leading_spaces(&row);
        if leading < min_space {
            return Err(OutOfRange);
        }
        let ghost before = lines_view(cut@);
        cut.push(string_of(&row, min_space, row.len()));
        proof {
            assert(lines[i as int].skip(min_space as int) =~= lines[i as int].subrange(
                min_space as int,
                row.len() as int,
            ));
            assert(lines_view(cut@) =~= before.push(lines[i as int].skip(min_space as int)));
        }
        i += 1;
    }
    assert(lines_view(cut@) =~= trimmed(lines));
    *rows = cut;
    Ok(())
}

/// Whether the grid `rows` can be laid out within unsigned machine
/// integers: it has a row, and it is no wider than a quarter of the largest
/// integer.
pub open spec fn grid_fits(rows: Seq<Seq<Cell>>) -> bool {
    &&& rows.len() >= 1
    &&& 4 * grid_width(rows.len(), cell_width_of(rows)) <= usize::MAX
}

/// Writes the lines of the grid `rows` from top to bottom: for each row a
/// line with its cells, and above each row but the first the lines of the
/// branches that lead up from it.
pub fn format_rows(rows: &Vec<Vec<CellDisplay>>) -> (res: Result<Vec<String>, OutOfRange>)
    ensures
        match res {
            Ok(lines) => grid_fits(rows_view(rows@)) && lines_view(lines@) == formatted_rows(
                rows_view(rows@),
            ),
            Err(_) => !grid_fits(rows_view(rows@)),
        },
{
    if rows.len() == 0 {
        return Err(OutOfRange);
    }
    let cell_width = cell_width(rows);
    let top = match checked_power_of_two(rows.len() - 1) {
        Some(top) => top,
        None => {
            proof {
                lemma_grid_width(rows.len() as nat, cell_width as nat);
            }
            return Err(OutOfRange);
        },
    };
    proof {
        vstd::arithmetic::power2::lemma_pow2_pos((rows.len() - 1) as nat);
    }
    if cell_width > usize::MAX / 4 - 1 {
        proof {
            assert(top * (cell_width + 1) >= cell_width + 1) by (nonlinear_arith)
                requires
                    top >= 1,
            ;
        }
        return Err(OutOfRange);
    }
    // The grid has `top` places in its last row, each with a space after it.
    let cell_room = 4 * (cell_width + 1);
    let limit = usize::MAX / cell_room;
    proof {
        let places = top as int;
        let room = cell_room as int;
        let most = usize::MAX as int;
        let bound = limit as int;
        assert(bound == most / room);
        assert(places * room == 4 * (places * (cell_width + 1))) by (nonlinear_arith)
            requires
                room == 4 * (cell_width + 1),
        ;
        assert(bound * room <= most < (bound + 1) * room) by (nonlinear_arith)
            requires
                bound == most / room,
                room > 0,
        ;
        if places > bound {
            assert(places * room >= (bound + 1) * room) by (nonlinear_arith)
                requires
                    places >= bound + 1,
                    room > 0,
            ;
        } else {
            assert(places * room <= bound * room) by (nonlinear_arith)
                requires
                    places <= bound,
                    room > 0,
            ;
        }
    }
    if top > limit {
        return Err(OutOfRange);
    }
    Ok(format_grid(rows, cell_width, top))
}

/// Whether the grid of the tree `root` can be laid out within unsigned
/// machine integers and its margin can be cut: the grid is no wider than a
/// quarter of the largest integer, and no line of spaces alone is shorter
/// than the margin.
pub open spec fn dump_fits(root: BinTreeNode<String>) -> bool {
    let rows = display_rows(root);
    &&& 4 * grid_width(root.depth(), cell_width_of(rows)) <= usize::MAX
    &&& trimmable(formatted_rows(rows))
}

/// The text that shows the tree `root` level by level.
pub open spec fn dump_text(root: BinTreeNode<String>) -> Seq<char> {
    joined(trimmed(formatted_rows(display_rows(root))))
}

/// A grid is at least as wide as four times the number of places of its
/// last row, and that number doubles with each level.
proof fn lemma_grid_width(depth: nat, width: nat)
    requires
        depth >= 1,
        width >= 3,
    ensures
        grid_width(depth, width) >= 4 * pow2((depth - 1) as nat),
        grid_width(depth, width) >= 2 * pow2(depth),
        pow2((depth - 1) as nat) >= 1,
{
    let top = pow2((depth - 1) as nat);
    lemma_pow2_unfold(depth);
    assert(top * (width + 1) >= 4 * top) by (nonlinear_arith)
        requires
            width >= 3,
            top >= 0,
    ;
    vstd::arithmetic::power2::lemma_pow2_pos((depth - 1) as nat);
}

impl BinTree<String> {
    /// Draws the tree of labels level by level, with slanted branches, and
    /// without the margin that all lines share.
    pub fn dump(&self) -> (res: Result<String, OutOfRange>)
        ensures
            match res {
                Ok(text) => dump_fits(self.root) && text@ == dump_text(self.root),
                Err(_) => !dump_fits(self.root),
            },
    {
        proof {
            lemma_grid_width(self.root.depth(), cell_width_of(display_rows(self.root)));
        }
        let rows = match build_display_rows(&self.root) {
            Ok(rows) => rows,
            Err(e) => {
                return Err(e);
            },
        };
        let mut formatted = match format_rows(&rows) {
            Ok(formatted) => formatted,
            Err(e) => {
                return Err(e);
            },
        };
        match trim_left_whitespace(&mut formatted) {
            Ok(_) => Ok(join_lines(&formatted)),
            Err(e) => Err(e),
        }
    }
}

} // verus!
