//! Where the nodes of a tree stand on its grid.
//!
//! Row `level` of the grid has a place for each way of `level` steps down
//! from the root: place `pos` is reached by going left or right as the
//! binary digits of `pos` say, the highest digit first, 0 for left.

use crate::bin_tree::BinTreeNode;
use crate::tree_dump::{cell_of, display_rows, filled_node, filled_slot, placed, Cell};
use vstd::arithmetic::power2::{lemma2_to64, lemma_pow2_pos, lemma_pow2_unfold, pow2};
use vstd::prelude::*;

verus! {

/// The node at place `pos`, `level` steps below the root of the subtree in
/// `slot`, if a node stands there.
pub open spec fn slot_at(slot: Option<Box<BinTreeNode<String>>>, level: nat, pos: int) -> Option<
    BinTreeNode<String>,
>
    decreases level, 1nat,
{
    match slot {
        Some(node) => node_at(*node, level, pos),
        None => None,
    }
}

/// The node at place `pos`, `level` steps below `node`, if a node stands
/// there: the places of the left child come first, then as many of the right.
pub open spec fn node_at(node: BinTreeNode<String>, level: nat, pos: int) -> Option<
    BinTreeNode<String>,
>
    decreases level, 0nat,
{
    if level == 0 {
        if pos == 0 {
            Some(node)
        } else {
            None
        }
    } else {
        let half = pow2((level - 1) as nat) as int;
        if 0 <= pos < half {
            slot_at(node.left, (level - 1) as nat, pos)
        } else if half <= pos < 2 * half {
            slot_at(node.right, (level - 1) as nat, pos - half)
        } else {
            None
        }
    }
}

/// The cell at place `pos`, `level` steps below the root of the subtree in
/// `slot`: the label of the node there, and empty where none stands or the
/// node has no value.
pub open spec fn slot_cell(slot: Option<Box<BinTreeNode<String>>>, level: nat, pos: int) -> Cell {
    match slot_at(slot, level, pos) {
        Some(node) => cell_of(node),
        None => None,
    }
}

/// The last place that is laid out `level` steps below the root of the
/// subtree in `slot`, if any is: a missing subtree takes one empty place.
pub open spec fn slot_reach(slot: Option<Box<BinTreeNode<String>>>, level: nat) -> Option<int>
    decreases slot, 1nat,
{
    match slot {
        Some(node) => node_reach(*node, level),
        None => if level == 0 {
            Some(0)
        } else {
            None
        },
    }
}

/// The last place that is laid out `level` steps below `node`, if any is:
/// the last place of its right subtree, or else of its left subtree.
pub open spec fn node_reach(node: BinTreeNode<String>, level: nat) -> Option<int>
    decreases node, 0nat,
{
    if level == 0 {
        Some(0)
    } else {
        match slot_reach(node.right, (level - 1) as nat) {
            Some(last) => Some(pow2((level - 1) as nat) + last),
            None => slot_reach(node.left, (level - 1) as nat),
        }
    }
}

/// The places that are laid out `level` steps below the root of the subtree
/// in `slot`, from the first to the last.
pub open spec fn slot_cells(slot: Option<Box<BinTreeNode<String>>>, level: nat) -> Seq<Cell> {
    match slot_reach(slot, level) {
        Some(last) => Seq::new((last + 1) as nat, |pos: int| slot_cell(slot, level, pos)),
        None => Seq::empty(),
    }
}

/// The row `row` once the cells `cells` are laid on it from place `start`
/// on: the places in between are empty. Nothing changes where there are no
/// cells.
pub open spec fn laid(row: Seq<Cell>, start: int, cells: Seq<Cell>) -> Seq<Cell> {
    if cells.len() == 0 {
        row
    } else {
        row + Seq::new((start - row.len()) as nat, |i: int| None::<Seq<char>>) + cells
    }
}

/// The places of a subtree lie within its span, and no node stands beyond
/// the last place.
pub proof fn lemma_reach(slot: Option<Box<BinTreeNode<String>>>, level: nat, pos: int)
    ensures
        slot_reach(slot, level) matches Some(last) ==> 0 <= last < pow2(level),
        slot_reach(slot, level) matches Some(last) ==> (pos > last ==> slot_at(slot, level, pos)
            is None),
        slot_reach(slot, level) is None ==> slot_at(slot, level, pos) is None,
        pos < 0 || pos >= pow2(level) ==> slot_at(slot, level, pos) is None,
    decreases slot,
{
    lemma2_to64();
    lemma_pow2_pos(level);
    if let Some(node) = slot {
        if level > 0 {
            let below = (level - 1) as nat;
            let half = pow2(below) as int;
            lemma_pow2_unfold(level);
            lemma_pow2_pos(below);
            lemma_reach(node.left, below, pos);
            lemma_reach(node.right, below, pos - half);
            lemma_reach(node.right, below, pos);
            lemma_reach(node.left, below, pos - half);
        }
    }
}

/// Whether every row from `level` on ends before the places that lie below
/// place `pos` of row `level`.
pub open spec fn room_below(rows: Seq<Seq<Cell>>, level: int, pos: int) -> bool {
    forall|l: int|
        level <= l < rows.len() ==> (#[trigger] rows[l]).len() <= pos * pow2((l - level) as nat)
}

/// What laying the subtree in `slot` at place `pos` of row `level` makes of
/// row `l` of the grid `rows`.
pub open spec fn row_after(
    rows: Seq<Seq<Cell>>,
    slot: Option<Box<BinTreeNode<String>>>,
    level: int,
    pos: int,
    l: int,
) -> Seq<Cell> {
    if l < level {
        rows[l]
    } else {
        laid(rows[l], pos * pow2((l - level) as nat), slot_cells(slot, (l - level) as nat))
    }
}

/// Laying a subtree on a grid that has room for it adds to each row the
/// places of the subtree at that depth, and nothing else.
pub proof fn lemma_fill_slot(
    rows: Seq<Seq<Cell>>,
    slot: Option<Box<BinTreeNode<String>>>,
    level: int,
    pos: int,
)
    requires
        0 <= level,
        0 <= pos,
        room_below(rows, level, pos),
    ensures
        filled_slot(rows, slot, level, pos).len() == rows.len(),
        forall|l: int|
            0 <= l < rows.len() ==> #[trigger] filled_slot(rows, slot, level, pos)[l] == row_after(
                rows,
                slot,
                level,
                pos,
                l,
            ),
    decreases slot, 1nat,
{
    lemma2_to64();
    match slot {
        Some(node) => {
            lemma_fill_node(rows, *node, level, pos);
        },
        None => {
            if level < rows.len() {
                let out = filled_slot(rows, slot, level, pos);
                assert forall|l: int| 0 <= l < rows.len() implies #[trigger] out[l] == row_after(
                    rows,
                    slot,
                    level,
                    pos,
                    l,
                ) by {
                    if l == level {
                        assert(rows[l].len() <= pos * pow2(0));
                        assert(slot_cells(slot, 0) =~= seq![None::<Seq<char>>]);
                        assert(out[l] =~= row_after(rows, slot, level, pos, l));
                    } else if l > level {
                        assert(slot_cells(slot, (l - level) as nat) =~= Seq::<Cell>::empty());
                    }
                }
            } else {
                assert forall|l: int| 0 <= l < rows.len() implies #[trigger] filled_slot(
                    rows,
                    slot,
                    level,
                    pos,
                )[l] == row_after(rows, slot, level, pos, l) by {}
            }
        },
    }
}

/// Laying a tree on a grid that has room for it adds to each row the places
/// of the tree at that depth, and nothing else.
pub proof fn lemma_fill_node(
    rows: Seq<Seq<Cell>>,
    node: BinTreeNode<String>,
    level: int,
    pos: int,
)
    requires
        0 <= level,
        0 <= pos,
        room_below(rows, level, pos),
    ensures
        filled_node(rows, node, level, pos).len() == rows.len(),
        forall|l: int|
            0 <= l < rows.len() ==> #[trigger] filled_node(rows, node, level, pos)[l] == row_after(
                rows,
                Some(Box::new(node)),
                level,
                pos,
                l,
            ),
    decreases node, 0nat,
{
    lemma2_to64();
    let slot: Option<Box<BinTreeNode<String>>> = Some(Box::new(node));
    let out = filled_node(rows, node, level, pos);
    if level < rows.len() {
        let here = rows.update(level, placed(rows[level], pos, cell_of(node)));
        assert(room_below(here, level + 1, 2 * pos)) by {
            assert forall|l: int| level + 1 <= l < here.len() implies (#[trigger] here[l]).len() <= 2
                * pos * pow2((l - level - 1) as nat) by {
                assert(here[l] == rows[l]);
                lemma_pow2_unfold((l - level) as nat);
                assert(pos * pow2((l - level) as nat) == 2 * pos * pow2((l - level - 1) as nat))
                    by (nonlinear_arith)
                    requires
                        pow2((l - level) as nat) == 2 * pow2((l - level - 1) as nat),
                ;
            }
        }
        lemma_fill_slot(here, node.left, level + 1, 2 * pos);
        let with_left = filled_slot(here, node.left, level + 1, 2 * pos);
        assert(room_below(with_left, level + 1, 2 * pos + 1)) by {
            assert forall|l: int| level + 1 <= l < with_left.len() implies (
            #[trigger] with_left[l]).len() <= (2 * pos + 1) * pow2((l - level - 1) as nat) by {
                let depth = (l - level - 1) as nat;
                let span = pow2(depth) as int;
                lemma_pow2_pos(depth);
                lemma_reach(node.left, depth, 0);
                assert(with_left[l] == row_after(here, node.left, level + 1, 2 * pos, l));
                assert(here[l].len() <= 2 * pos * span);
                assert((2 * pos + 1) * span == 2 * pos * span + span) by (nonlinear_arith);
                assert(2 * pos * span >= 0) by (nonlinear_arith)
                    requires
                        pos >= 0,
                        span >= 0,
                ;
            }
        }
        lemma_fill_slot(with_left, node.right, level + 1, 2 * pos + 1);
        assert forall|l: int| 0 <= l < rows.len() implies #[trigger] out[l] == row_after(
            rows,
            slot,
            level,
            pos,
            l,
        ) by {
            if l < level {
                assert(with_left[l] == here[l]);
            } else if l == level {
                assert(out[l] == with_left[l]);
                assert(with_left[l] == here[l]);
                assert(rows[l].len() <= pos * pow2(0));
                assert(slot_cells(slot, 0) =~= seq![cell_of(node)]);
                assert(out[l] =~= row_after(rows, slot, level, pos, l));
            } else {
                lemma_row_joins(rows[l], node, (l - level) as nat, pos);
                assert(with_left[l] == row_after(here, node.left, level + 1, 2 * pos, l));
                assert(here[l] == rows[l]);
            }
        }
    } else {
        assert forall|l: int| 0 <= l < rows.len() implies #[trigger] out[l] == row_after(
            rows,
            slot,
            level,
            pos,
            l,
        ) by {}
    }
}

/// The places of a tree at a depth are those of its left subtree, then, if
/// the right subtree has any, empty places up to the middle of the span and
/// those of the right subtree.
pub proof fn lemma_row_joins(row: Seq<Cell>, node: BinTreeNode<String>, depth: nat, pos: int)
    requires
        depth >= 1,
        0 <= pos,
        row.len() <= pos * pow2(depth),
    ensures
        laid(
            laid(
                row,
                2 * pos * pow2((depth - 1) as nat),
                slot_cells(node.left, (depth - 1) as nat),
            ),
            (2 * pos + 1) * pow2((depth - 1) as nat),
            slot_cells(node.right, (depth - 1) as nat),
        ) == laid(row, pos * pow2(depth), slot_cells(Some(Box::new(node)), depth)),
{
    let below = (depth - 1) as nat;
    let half = pow2(below) as int;
    let slot: Option<Box<BinTreeNode<String>>> = Some(Box::new(node));
    lemma_pow2_unfold(depth);
    lemma_pow2_pos(below);
    let start = pos * pow2(depth);
    assert(start == 2 * pos * half) by (nonlinear_arith)
        requires
            start == pos * pow2(depth),
            pow2(depth) == 2 * half,
    ;
    assert((2 * pos + 1) * half == start + half) by (nonlinear_arith)
        requires
            start == 2 * pos * half,
    ;
    lemma_reach(node.left, below, 0);
    lemma_reach(node.right, below, 0);
    let left_cells = slot_cells(node.left, below);
    let right_cells = slot_cells(node.right, below);
    let cells = slot_cells(slot, depth);
    let first = laid(row, start, left_cells);
    let both = laid(first, start + half, right_cells);
    let whole = laid(row, start, cells);
    assert forall|q: int| 0 <= q < 2 * half implies slot_cell(slot, depth, q) == if q < half {
        slot_cell(node.left, below, q)
    } else {
        slot_cell(node.right, below, q - half)
    } by {}
    match slot_reach(node.right, below) {
        Some(last) => {
            assert(cells.len() == half + last + 1);
            assert(both.len() == whole.len());
            assert forall|i: int| 0 <= i < whole.len() implies both[i] == whole[i] by {
                if i >= start {
                    let q = i - start;
                    if q < half {
                        lemma_reach(node.left, below, q);
                    }
                }
            }
            assert(both =~= whole);
        },
        None => {
            assert(right_cells.len() == 0);
            match slot_reach(node.left, below) {
                Some(last) => {
                    assert(cells.len() == last + 1);
                    assert(first =~= whole);
                },
                None => {},
            }
        },
    }
}

/// Row `level` of the grid of a tree holds, place by place, the nodes that
/// stand `level` steps below the root, up to the last place that is laid
/// out at that depth.
pub proof fn lemma_display_rows(root: BinTreeNode<String>, level: int)
    requires
        0 <= level < root.depth(),
    ensures
        display_rows(root).len() == root.depth(),
        display_rows(root)[level] == slot_cells(Some(Box::new(root)), level as nat),
{
    let blank = Seq::new(root.depth(), |i: int| Seq::<Cell>::empty());
    assert(room_below(blank, 0, 0)) by {
        assert forall|l: int| 0 <= l < blank.len() implies (#[trigger] blank[l]).len() <= 0
            * pow2(l as nat) by {
            assert(0 * pow2(l as nat) == 0) by (nonlinear_arith);
        }
    }
    lemma_fill_node(blank, root, 0, 0);
    let slot: Option<Box<BinTreeNode<String>>> = Some(Box::new(root));
    assert(0 * pow2(level as nat) == 0) by (nonlinear_arith);
    assert(display_rows(root)[level] == row_after(blank, slot, 0, 0, level));
    assert(laid(blank[level], 0, slot_cells(slot, level as nat)) =~= slot_cells(
        slot,
        level as nat,
    ));
}

} // verus!
