//! Evaluation of a syntax tree under assignment masks.
//!
//! The variables of a tree are numbered in ascending order of their letters.
//! An assignment to all of them is an unsigned integer, the mask: bit `i` of
//! the mask is the value of variable number `i`, 1 for true and 0 for false.

use crate::ast::Node;
use crate::tokenizer::{is_identifier_char, Token};
use vstd::arithmetic::power2::{lemma2_to64, lemma_pow2_strictly_increases, pow2};
use vstd::bits::lemma_usize_shl_is_mul;
use vstd::prelude::*;

verus! {

/// Letter number `k` of the alphabet, counted from 0.
pub open spec fn letter(k: nat) -> char {
    (('a' as nat) + k) as char
}

/// The number of the letter `c` in the alphabet, counted from 0.
pub open spec fn letter_number(c: char) -> int {
    (c as int) - ('a' as int)
}

/// The members of `ids` among the letters from number `k` on, in ascending order.
pub open spec fn letters_from(ids: Set<char>, k: nat) -> Seq<char>
    decreases 26 - k,
{
    if k >= 26 {
        Seq::empty()
    } else if ids.contains(letter(k)) {
        seq![letter(k)] + letters_from(ids, k + 1)
    } else {
        letters_from(ids, k + 1)
    }
}

/// The letters of `ids` in ascending order. The place of a variable in this
/// sequence is its bit in every mask.
pub open spec fn canonical_order(ids: Set<char>) -> Seq<char> {
    letters_from(ids, 0)
}

/// Whether each element of `order` is smaller than all that follow it.
pub open spec fn ascending(order: Seq<char>) -> bool {
    forall|i: int, j: int| 0 <= i < j < order.len() ==> order[i] < order[j]
}

/// Whether `order` lists lower-case letters only.
pub open spec fn all_letters(order: Seq<char>) -> bool {
    forall|i: int| 0 <= i < order.len() ==> is_identifier_char(#[trigger] order[i])
}

/// Whether bit `index` of `pass` is 1.
pub open spec fn bit_is_set(pass: usize, index: usize) -> bool {
    pass & (1usize << index) != 0
}

/// The value of `left op right` for a binary operator `op`. EQUAL holds when
/// both sides have the same value.
pub open spec fn apply_binary(op: Token, left: bool, right: bool) -> bool {
    match op {
        Token::And => left && right,
        Token::Or => left || right,
        Token::Xor => left != right,
        _ => left == right,
    }
}

/// The value of `node` under the mask `pass`, where `order` numbers the
/// variables.
pub open spec fn truth_value(node: Node, order: Seq<char>, pass: usize) -> bool
    decreases node,
{
    match node {
        Node::Const(value) => value,
        Node::Identifier(name) => bit_is_set(pass, order.index_of(name) as usize),
        Node::SingleOp { operand, .. } => !truth_value(*operand, order, pass),
        Node::DoubleOp { op, left, right } => apply_binary(
            op,
            truth_value(*left, order, pass),
            truth_value(*right, order, pass),
        ),
        Node::Group(inner) => truth_value(*inner, order, pass),
    }
}

/// The value of each variable of `order` under the mask `pass`, in order.
pub open spec fn states_at(order: Seq<char>, pass: usize) -> Seq<(char, bool)> {
    Seq::new(order.len(), |i: int| (order[i], bit_is_set(pass, i as usize)))
}

/// One row of a truth table.
pub struct EvaluatorPassResult {
    /// The value of the expression.
    pub result: bool,
    /// Each variable with its value, in ascending order of the variables.
    pub ident_states: Vec<(char, bool)>,
}

/// A row of a truth table as a mathematical value.
pub struct PassRow {
    pub result: bool,
    pub ident_states: Seq<(char, bool)>,
}

impl View for EvaluatorPassResult {
    type V = PassRow;

    open spec fn view(&self) -> PassRow {
        PassRow { result: self.result, ident_states: self.ident_states@ }
    }
}

/// The row of the truth table of `ast` for the mask `pass`.
pub open spec fn row_at(ast: Node, pass: usize) -> PassRow {
    let order = canonical_order(ast.identifiers());
    PassRow { result: truth_value(ast, order, pass), ident_states: states_at(order, pass) }
}

/// The truth table of `ast`: the rows for the masks from 0 up, one for each
/// assignment to its variables.
pub open spec fn truth_table(ast: Node) -> Seq<PassRow> {
    Seq::new(pow2(ast.identifiers().len()), |pass: int| row_at(ast, pass as usize))
}

/// The rows of a table as mathematical values.
pub open spec fn rows_view(rows: Seq<EvaluatorPassResult>) -> Seq<PassRow> {
    rows.map_values(|row: EvaluatorPassResult| row@)
}

/// Whether `states` stand in the order of their names and no name occurs twice.
pub open spec fn in_strict_name_order(states: Seq<(char, bool)>) -> bool {
    forall|i: int, j: int| 0 <= i < j < states.len() ==> states[i].0 < states[j].0
}

/// Whether `rows` can make a table: there is a row, and all rows have as
/// many states as the first.
pub open spec fn table_shaped(rows: Seq<PassRow>) -> bool {
    &&& rows.len() > 0
    &&& forall|i: int|
        0 <= i < rows.len() ==> (#[trigger] rows[i]).ident_states.len()
            == rows[0].ident_states.len()
}

/// Whether the states of every row stand in strict name order.
pub open spec fn rows_in_name_order(rows: Seq<PassRow>) -> bool {
    forall|i: int| 0 <= i < rows.len() ==> in_strict_name_order((#[trigger] rows[i]).ident_states)
}

/// The letters from number `k` on that `letters_from` keeps are ascending
/// letters, and they are the members of `ids` among those letters.
pub proof fn lemma_letters_from(ids: Set<char>, k: nat)
    ensures
        ascending(letters_from(ids, k)),
        all_letters(letters_from(ids, k)),
        forall|c: char|
            #[trigger] letters_from(ids, k).contains(c) <==> ids.contains(c)
                && is_identifier_char(c) && letter_number(c) >= k,
        letters_from(ids, k).len() <= 26 - k || k >= 26,
    decreases 26 - k,
{
    if k < 26 {
        lemma_letters_from(ids, k + 1);
        let rest = letters_from(ids, k + 1);
        let all = letters_from(ids, k);
        if ids.contains(letter(k)) {
            assert(all == seq![letter(k)] + rest);
            assert(all[0] == letter(k));
            assert forall|i: int| 1 <= i < all.len() implies all[i] == rest[i - 1] by {}
            assert forall|i: int, j: int| 0 <= i < j < all.len() implies all[i] < all[j] by {
                assert(rest.contains(rest[j - 1]));
            }
            assert forall|c: char| #[trigger]
                all.contains(c) <==> ids.contains(c) && is_identifier_char(c) && letter_number(c)
                    >= k by {
                if all.contains(c) {
                    let i = choose|i: int| 0 <= i < all.len() && all[i] == c;
                    if i > 0 {
                        assert(rest.contains(rest[i - 1]));
                    }
                }
                if ids.contains(c) && is_identifier_char(c) && letter_number(c) >= k {
                    if c == letter(k) {
                        assert(all[0] == c);
                    } else {
                        assert(rest.contains(c));
                        let i = choose|i: int| 0 <= i < rest.len() && rest[i] == c;
                        assert(all[i + 1] == c);
                    }
                }
            }
        } else {
            assert forall|c: char| #[trigger]
                all.contains(c) <==> ids.contains(c) && is_identifier_char(c) && letter_number(c)
                    >= k by {}
        }
    }
}

/// An ascending list of lower-case letters is the canonical order of its
/// own members: the order does not depend on how the list was built.
pub proof fn lemma_ascending_is_canonical(ids: Set<char>, order: Seq<char>, k: nat)
    requires
        ascending(order),
        all_letters(order),
        forall|i: int| 0 <= i < order.len() ==> letter_number(#[trigger] order[i]) >= k,
        forall|c: char|
            is_identifier_char(c) && letter_number(c) >= k ==> (ids.contains(c)
                <==> order.contains(c)),
    ensures
        order == letters_from(ids, k),
    decreases 26 - k,
{
    if k >= 26 {
        if order.len() > 0 {
            assert(is_identifier_char(order[0]));
            assert(letter_number(order[0]) >= k);
        }
        assert(order =~= Seq::<char>::empty());
    } else if ids.contains(letter(k)) {
        let c = letter(k);
        assert('a' as int == 97 && 'z' as int == 122);
        assert(c as int == 97 + k);
        assert(is_identifier_char(c) && letter_number(c) == k);
        assert(order.contains(c));
        let i = choose|i: int| 0 <= i < order.len() && order[i] == c;
        if i > 0 {
            assert(order[0] < order[i]);
            assert(letter_number(order[0]) >= k);
        }
        let rest = order.drop_first();
        assert forall|j: int| 0 <= j < rest.len() implies letter_number(#[trigger] rest[j]) >= k
            + 1 by {
            assert(rest[j] == order[j + 1]);
            assert(order[0] < order[j + 1]);
        }
        assert forall|d: char| is_identifier_char(d) && letter_number(d) >= k + 1 implies (
        ids.contains(d) <==> rest.contains(d)) by {
            if order.contains(d) {
                let j = choose|j: int| 0 <= j < order.len() && order[j] == d;
                assert(j > 0);
                assert(rest[j - 1] == d);
            }
            if rest.contains(d) {
                let j = choose|j: int| 0 <= j < rest.len() && rest[j] == d;
                assert(order[j + 1] == d);
            }
        }
        assert(all_letters(rest)) by {
            assert forall|j: int| 0 <= j < rest.len() implies is_identifier_char(
                #[trigger] rest[j],
            ) by {
                assert(rest[j] == order[j + 1]);
            }
        }
        lemma_ascending_is_canonical(ids, rest, k + 1);
        assert(order =~= seq![c] + rest);
    } else {
        assert forall|j: int| 0 <= j < order.len() implies letter_number(#[trigger] order[j])
            >= k + 1 by {
            assert(order.contains(order[j]));
            assert(letter_number(order[j]) >= k);
        }
        lemma_ascending_is_canonical(ids, order, k + 1);
    }
}

/// The canonical order of a set of lower-case letters lists each of them
/// once, in ascending order, and nothing else.
pub proof fn lemma_canonical_order(ids: Set<char>)
    requires
        forall|c: char| ids.contains(c) ==> is_identifier_char(c),
    ensures
        ascending(canonical_order(ids)),
        all_letters(canonical_order(ids)),
        canonical_order(ids).no_duplicates(),
        canonical_order(ids).to_set() == ids,
        canonical_order(ids).len() == ids.len(),
        canonical_order(ids).len() <= 26,
        ids.finite(),
{
    let order = canonical_order(ids);
    lemma_letters_from(ids, 0);
    assert forall|c: char| order.contains(c) <==> ids.contains(c) by {
        assert(is_identifier_char(c) ==> letter_number(c) >= 0);
    }
    assert(order.to_set() =~= ids);
    order.unique_seq_to_set();
    vstd::seq_lib::seq_to_set_is_finite(order);
}

/// The variables of a well-formed tree are lower-case letters.
pub proof fn lemma_identifiers_are_letters(node: Node)
    requires
        node.well_formed(),
    ensures
        forall|c: char| node.identifiers().contains(c) ==> is_identifier_char(c),
    decreases node,
{
    match node {
        Node::SingleOp { operand, .. } => lemma_identifiers_are_letters(*operand),
        Node::DoubleOp { left, right, .. } => {
            lemma_identifiers_are_letters(*left);
            lemma_identifiers_are_letters(*right);
        },
        Node::Group(inner) => lemma_identifiers_are_letters(*inner),
        _ => {},
    }
}

/// The rows of a truth table can make a table, and the states of each of
/// them stand in strict name order.
pub proof fn lemma_truth_table_shape(ast: Node)
    requires
        ast.well_formed(),
    ensures
        table_shaped(truth_table(ast)),
        rows_in_name_order(truth_table(ast)),
{
    lemma_identifiers_are_letters(ast);
    lemma_canonical_order(ast.identifiers());
    vstd::arithmetic::power2::lemma_pow2_pos(ast.identifiers().len());
    let rows = truth_table(ast);
    let order = canonical_order(ast.identifiers());
    assert forall|i: int| 0 <= i < rows.len() implies in_strict_name_order(
        (#[trigger] rows[i]).ident_states,
    ) by {
        let states = rows[i].ident_states;
        assert forall|a: int, b: int| 0 <= a < b < states.len() implies states[a].0
            < states[b].0 by {
            assert(states[a].0 == order[a]);
            assert(states[b].0 == order[b]);
        }
    }
}

/// The numbering of variables is canonical. It depends on the set of
/// variables alone: trees that hold the same variables, wherever these
/// stand, number them alike. A smaller letter has the smaller number. And
/// every ascending list of the variables of a tree is that numbering.
pub proof fn lemma_index_is_canonical(first: Node, second: Node, listing: Seq<char>)
    requires
        first.well_formed(),
        second.well_formed(),
        first.identifiers() == second.identifiers(),
        ascending(listing),
        forall|c: char| listing.contains(c) <==> first.identifiers().contains(c),
    ensures
        canonical_order(first.identifiers()) == canonical_order(second.identifiers()),
        listing == canonical_order(first.identifiers()),
        forall|c: char| #[trigger]
            first.identifiers().contains(c) ==> {
                let at = canonical_order(first.identifiers()).index_of(c);
                &&& 0 <= at < first.identifiers().len()
                &&& canonical_order(first.identifiers())[at] == c
                &&& at == canonical_order(second.identifiers()).index_of(c)
            },
        forall|c: char, d: char|
            first.identifiers().contains(c) && first.identifiers().contains(d) && c < d
                ==> canonical_order(first.identifiers()).index_of(c) < canonical_order(
                first.identifiers(),
            ).index_of(d),
{
    let ids = first.identifiers();
    let order = canonical_order(ids);
    lemma_identifiers_are_letters(first);
    lemma_canonical_order(ids);
    assert forall|i: int| 0 <= i < listing.len() implies is_identifier_char(
        #[trigger] listing[i],
    ) by {
        assert(listing.contains(listing[i]));
    }
    lemma_ascending_is_canonical(ids, listing, 0);
    assert forall|c: char| #[trigger] ids.contains(c) implies {
        let at = order.index_of(c);
        &&& 0 <= at < ids.len()
        &&& order[at] == c
    } by {
        assert(order.to_set().contains(c));
        assert(order.contains(c));
    }
    assert forall|c: char, d: char| ids.contains(c) && ids.contains(d) && c < d implies order.index_of(
        c,
    ) < order.index_of(d) by {
        assert(order.to_set().contains(c));
        assert(order.to_set().contains(d));
        let i = order.index_of(c);
        let j = order.index_of(d);
        if j <= i {
            if j < i {
                assert(order[j] < order[i]);
            }
        }
    }
}

/// Parentheses do not change what an expression means: under every mask, a
/// group has the value of its inner expression, and numbers the same
/// variables in the same way.
pub proof fn lemma_group_is_transparent(inner: Node, pass: usize)
    ensures
        Node::Group(Box::new(inner)).identifiers() == inner.identifiers(),
        row_at(Node::Group(Box::new(inner)), pass) == row_at(inner, pass),
        truth_value(Node::Group(Box::new(inner)), canonical_order(inner.identifiers()), pass)
            == truth_value(inner, canonical_order(inner.identifiers()), pass),
{
}

/// A truth table has one row for each assignment to the variables of the
/// tree: as many as 2 to the power of their number, and a single row where
/// the tree has no variable.
pub proof fn lemma_row_count(ast: Node)
    requires
        ast.well_formed(),
    ensures
        ast.identifiers().finite(),
        ast.identifiers().len() <= 26,
        1 <= pow2(ast.identifiers().len()) <= 0x4000000,
        ast.identifiers().len() == 0 ==> pow2(ast.identifiers().len()) == 1,
{
    lemma_identifiers_are_letters(ast);
    lemma_canonical_order(ast.identifiers());
    lemma2_to64();
    if ast.identifiers().len() < 26 {
        lemma_pow2_strictly_increases(ast.identifiers().len(), 26);
    }
    vstd::arithmetic::power2::lemma_pow2_pos(ast.identifiers().len());
}

/// Puts `name` at its place in the ascending list `idents`, unless it is there.
fn insert_sorted(idents: &mut Vec<char>, name: char)
    requires
        ascending(old(idents)@),
        all_letters(old(idents)@),
        is_identifier_char(name),
    ensures
        ascending(final(idents)@),
        all_letters(final(idents)@),
        forall|c: char|
            #[trigger] final(idents)@.contains(c) <==> old(idents)@.contains(c) || c == name,
{
    let mut at: usize = 0;
    while at < idents.len() && idents[at] < name
        invariant
            at <= idents.len(),
            idents@ == old(idents)@,
            forall|j: int| 0 <= j < at ==> idents[j] < name,
        decreases idents.len() - at,
    {
        at += 1;
    }
    if at < idents.len() && idents[at] == name {
        assert(idents@.contains(name));
        return ;
    }
    idents.insert(at, name);
    proof {
        let before = old(idents)@;
        let now = idents@;
        assert forall|i: int, j: int| 0 <= i < j < now.len() implies now[i] < now[j] by {
            if j > at {
                assert(now[j] == before[j - 1]);
                if at < before.len() {
                    assert(before[at as int] <= before[j - 1]);
                }
            }
        }
        assert forall|i: int| 0 <= i < now.len() implies is_identifier_char(#[trigger] now[i]) by {
            if i > at {
                assert(now[i] == before[i - 1]);
            }
        }
        assert forall|c: char| now.contains(c) <==> before.contains(c) || c == name by {
            if now.contains(c) {
                let i = choose|i: int| 0 <= i < now.len() && now[i] == c;
                if i < at {
                    assert(before[i] == c);
                } else if i > at {
                    assert(before[i - 1] == c);
                }
            }
            if before.contains(c) {
                let i = choose|i: int| 0 <= i < before.len() && before[i] == c;
                if i < at {
                    assert(now[i] == c);
                } else {
                    assert(now[i + 1] == c);
                }
            }
            if c == name {
                assert(now[at as int] == c);
            }
        }
    }
}

/// Adds the variables of `node` to the ascending list `idents`.
fn collect_identifiers(node: &Node, idents: &mut Vec<char>)
    requires
        node.well_formed(),
        ascending(old(idents)@),
        all_letters(old(idents)@),
    ensures
        ascending(final(idents)@),
        all_letters(final(idents)@),
        forall|c: char|
            #[trigger] final(idents)@.contains(c) <==> old(idents)@.contains(c)
                || node.identifiers().contains(c),
    decreases node,
{
    match node {
        Node::Const(_) => {},
        Node::Identifier(name) => insert_sorted(idents, *name),
        Node::SingleOp { operand, .. } => collect_identifiers(operand, idents),
        Node::DoubleOp { left, right, .. } => {
            collect_identifiers(left, idents);
            let ghost half = idents@;
            collect_identifiers(right, idents);
            assert forall|c: char| #[trigger]
                idents@.contains(c) <==> old(idents)@.contains(c) || node.identifiers().contains(
                    c,
                ) by {
                assert(half.contains(c) <==> old(idents)@.contains(c) || left.identifiers().contains(
                    c,
                ));
            }
        },
        Node::Group(inner) => collect_identifiers(inner, idents),
    }
}

/// Reads bit `index` of `pass`.
fn bit(pass: usize, index: usize) -> (r: bool)
    requires
        index < 26,
    ensures
        r == bit_is_set(pass, index),
{
    pass & (1usize << index) != 0
}

/// Evaluates one syntax tree under any assignment to its variables.
pub struct Evaluator {
    ast: Node,
    idents: Vec<char>,
}

impl Evaluator {
    #[verifier::type_invariant]
    spec fn indexed(self) -> bool {
        &&& self.ast.well_formed()
        &&& self.idents@ == canonical_order(self.ast.identifiers())
    }

    /// The tree that this evaluator holds.
    pub closed spec fn ast(self) -> Node {
        self.ast
    }

    /// The variables of the tree in the order of their bits.
    pub open spec fn order(self) -> Seq<char> {
        canonical_order(self.ast().identifiers())
    }

    /// The value of the tree under the mask `pass`.
    pub open spec fn value_at(self, pass: usize) -> bool {
        truth_value(self.ast(), self.order(), pass)
    }

    /// Takes a well-formed tree and numbers its variables.
    pub fn new(ast: Node) -> (evaluator: Self)
        requires
            ast.well_formed(),
        ensures
            evaluator.ast() == ast,
    {
        let idents = Self::calc_ident_bit_index(&ast);
        Evaluator { ast, idents }
    }

    /// Collects the variables of `ast`, each once, in ascending order.
    fn calc_ident_bit_index(ast: &Node) -> (idents: Vec<char>)
        requires
            ast.well_formed(),
        ensures
            idents@ == canonical_order(ast.identifiers()),
    {
        let mut idents: Vec<char> = Vec::new();
        collect_identifiers(ast, &mut idents);
        proof {
            lemma_identifiers_are_letters(*ast);
            lemma_ascending_is_canonical(ast.identifiers(), idents@, 0);
        }
        idents
    }

    /// The variables of the tree, each once, in ascending order.
    pub fn get_identifiers(&self) -> (names: Vec<char>)
        ensures
            names@ == self.order(),
    {
        proof {
            use_type_invariant(self);
        }
        let mut names: Vec<char> = Vec::new();
        let mut i: usize = 0;
        while i < self.idents.len()
            invariant
                i <= self.idents.len(),
                names@ == self.idents@.subrange(0, i as int),
            decreases self.idents.len() - i,
        {
            names.push(self.idents[i]);
            i += 1;
        }
        assert(names@ == self.idents@);
        names
    }

    /// The number of variables of the tree.
    pub fn ident_count(&self) -> (count: usize)
        ensures
            count == self.ast().identifiers().len(),
            count <= 26,
    {
        proof {
            use_type_invariant(self);
            lemma_identifiers_are_letters(self.ast);
            lemma_canonical_order(self.ast.identifiers());
        }
        self.idents.len()
    }

    /// The number of rows of the truth table.
    pub fn row_count(&self) -> (count: usize)
        ensures
            count == pow2(self.ast().identifiers().len()),
    {
        let ident_count = self.ident_count();
        proof {
            lemma2_to64();
            if ident_count < 26 {
                lemma_pow2_strictly_increases(ident_count as nat, 26);
            }
            lemma_usize_shl_is_mul(1, ident_count);
        }
        1usize << ident_count
    }

    /// The value of the variable `c` under the mask `pass`.
    pub fn get_ident_bit(&self, c: char, pass: usize) -> (value: bool)
        requires
            self.order().contains(c),
        ensures
            value == bit_is_set(pass, self.order().index_of(c) as usize),
    {
        proof {
            use_type_invariant(self);
            lemma_identifiers_are_letters(self.ast);
            lemma_canonical_order(self.ast.identifiers());
        }
        let mut i: usize = 0;
        while self.idents[i] != c
            invariant
                i < self.idents.len(),
                self.idents@.contains(c),
                forall|j: int| 0 <= j < i ==> self.idents[j] != c,
            decreases self.idents.len() - i,
        {
            i += 1;
        }
        bit(pass, i)
    }

    /// The value of the tree under the mask `pass`.
    pub fn evaluate(&self, pass: usize) -> (value: bool)
        ensures
            value == self.value_at(pass),
    {
        proof {
            use_type_invariant(self);
        }
        self.evaluate_node(&self.ast, pass)
    }

    /// The row of the truth table for the mask `pass`.
    pub fn pass_result(&self, pass: usize) -> (row: EvaluatorPassResult)
        ensures
            row@ == row_at(self.ast(), pass),
    {
        proof {
            use_type_invariant(self);
            lemma_identifiers_are_letters(self.ast);
            lemma_canonical_order(self.ast.identifiers());
        }
        let result = self.evaluate(pass);
        let mut ident_states: Vec<(char, bool)> = Vec::new();
        let mut i: usize = 0;
        while i < self.idents.len()
            invariant
                i <= self.idents.len() <= 26,
                ident_states@ == states_at(self.idents@, pass).subrange(0, i as int),
            decreases self.idents.len() - i,
        {
            ident_states.push((self.idents[i], bit(pass, i)));
            i += 1;
        }
        assert(ident_states@ == states_at(self.idents@, pass));
        EvaluatorPassResult { result, ident_states }
    }

    /// The whole truth table: one row for each mask from 0 up, as many rows
    /// as there are assignments to the variables.
    pub fn evaluate_iter(&self) -> (rows: Vec<EvaluatorPassResult>)
        ensures
            rows_view(rows@) == truth_table(self.ast()),
            rows.len() == pow2(self.ast().identifiers().len()),
            self.ast().identifiers().len() == 0 ==> rows.len() == 1,
            self.ast().well_formed(),
            table_shaped(rows_view(rows@)),
            rows_in_name_order(rows_view(rows@)),
    {
        proof {
            use_type_invariant(self);
            lemma_identifiers_are_letters(self.ast);
            lemma_canonical_order(self.ast.identifiers());
        }
        proof {
            lemma2_to64();
            lemma_truth_table_shape(self.ast);
        }
        let count: usize = self.row_count();
        let mut rows: Vec<EvaluatorPassResult> = Vec::new();
        let mut pass: usize = 0;
        while pass < count
            invariant
                pass <= count,
                rows.len() == pass,
                forall|p: int|
                    0 <= p < rows.len() ==> (#[trigger] rows[p])@ == row_at(
                        self.ast(),
                        p as usize,
                    ),
            decreases count - pass,
        {
            rows.push(self.pass_result(pass));
            pass += 1;
        }
        assert(rows_view(rows@) =~= truth_table(self.ast()));
        rows
    }

    fn evaluate_node(&self, node: &Node, pass: usize) -> (value: bool)
        requires
            node.well_formed(),
            node.identifiers().subset_of(self.ast().identifiers()),
        ensures
            value == truth_value(*node, self.order(), pass),
        decreases node,
    {
        match node {
            Node::Const(value) => *value,
            Node::SingleOp { operand, .. } => !self.evaluate_node(operand, pass),
            Node::DoubleOp { op, left, right } => {
                let left = self.evaluate_node(left, pass);
                let right = self.evaluate_node(right, pass);
                match op {
                    Token::And => left && right,
                    Token::Or => left || right,
                    Token::Xor => left != right,
                    _ => left == right,
                }
            },
            Node::Group(inner) => self.evaluate_node(inner, pass),
            Node::Identifier(name) => {
                proof {
                    use_type_invariant(self);
                    lemma_identifiers_are_letters(self.ast);
                    lemma_canonical_order(self.ast.identifiers());
                    assert(self.ast.identifiers().contains(*name));
                }
                self.get_ident_bit(*name, pass)
            },
        }
    }
}

} // verus!
