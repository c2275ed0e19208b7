//! The grammar of expressions, as a function from tokens to trees.
//!
//! ```text
//! equality   := xor_expr ( '=' xor_expr )*
//! xor_expr   := or_expr  ( '^' or_expr  )*
//! or_expr    := and_expr ( '|' and_expr )*
//! and_expr   := not_expr ( '&' not_expr )*
//! not_expr   := '!' factor | factor
//! factor     := IDENTIFIER | '1' | '0' | '(' equality ')'
//! ```
//!
//! The rules are numbered from the loosest binding to the tightest: `0` to
//! `3` are the four binary rules, `4` is `not_expr` and `5` is `factor`.
//! Binary operators associate to the left. A `!` applies to the one factor
//! that follows it.
//!
//! A failed parse reports where the cursor stands once the offending token,
//! if there is one, has been taken: just past that token, or at the end of
//! the input.

use crate::ast::Node;
use crate::diagnostic::{char_at, diagnostic};
use crate::tokenizer::{names_valid, Token};
use vstd::prelude::*;

verus! {

/// The operator that the binary rule `level` folds.
pub open spec fn level_operator(level: nat) -> Token {
    if level == 0 {
        Token::Equal
    } else if level == 1 {
        Token::Xor
    } else if level == 2 {
        Token::Or
    } else {
        Token::And
    }
}

/// The number of tokens from `pos` to the end.
pub open spec fn remaining(tokens: Seq<Token>, pos: nat) -> nat {
    if pos <= tokens.len() {
        (tokens.len() - pos) as nat
    } else {
        0
    }
}

/// How many rules lie between `level` and `factor`.
pub open spec fn rank(level: nat) -> nat {
    if level < 5 {
        (5 - level) as nat
    } else {
        0
    }
}

/// Where the cursor stands after an attempt to take the token at `pos`.
pub open spec fn cursor_after(tokens: Seq<Token>, pos: nat) -> nat {
    if pos < tokens.len() {
        pos + 1
    } else {
        pos
    }
}

/// The expression that the rule `level` reads from `pos` on, with the
/// position that follows it; or the position of the failure.
///
/// The test `next >= pos` serves the termination measure only: a rule never
/// ends before it starts (`lemma_parse_bounds`).
pub open spec fn parse_at(tokens: Seq<Token>, pos: nat, level: nat) -> Result<(Node, nat), nat>
    decreases remaining(tokens, pos), rank(level), 1nat,
{
    if level < 4 {
        match parse_at(tokens, pos, level + 1) {
            Ok((first, next)) => if next >= pos {
                fold_at(tokens, first, next, level)
            } else {
                Err(next)
            },
            Err(at) => Err(at),
        }
    } else if level == 4 {
        if pos < tokens.len() && tokens[pos as int] == Token::Not {
            match parse_at(tokens, pos + 1, 5) {
                Ok((operand, next)) => Ok(
                    (Node::SingleOp { op: Token::Not, operand: Box::new(operand) }, next),
                ),
                Err(at) => Err(at),
            }
        } else {
            parse_at(tokens, pos, 5)
        }
    } else if pos >= tokens.len() {
        Err(pos)
    } else {
        match tokens[pos as int] {
            Token::Identifier(name) => Ok((Node::Identifier(name), pos + 1)),
            Token::ConstTrue => Ok((Node::Const(true), pos + 1)),
            Token::ConstFalse => Ok((Node::Const(false), pos + 1)),
            Token::GroupOpen => match parse_at(tokens, pos + 1, 0) {
                Ok((inner, next)) => if next < tokens.len() && tokens[next as int]
                    == Token::GroupClose {
                    Ok((Node::Group(Box::new(inner)), next + 1))
                } else {
                    Err(cursor_after(tokens, next))
                },
                Err(at) => Err(at),
            },
            _ => Err(pos + 1),
        }
    }
}

/// The rest of the binary rule `level`, once `left` has been read up to
/// `pos`: each further operator of the rule takes `left` as its left operand.
///
/// The test `next > pos` serves the termination measure only.
pub open spec fn fold_at(tokens: Seq<Token>, left: Node, pos: nat, level: nat) -> Result<
    (Node, nat),
    nat,
>
    decreases remaining(tokens, pos), rank(level), 0nat,
{
    if pos < tokens.len() && tokens[pos as int] == level_operator(level) {
        match parse_at(tokens, pos + 1, level + 1) {
            Ok((right, next)) => if next > pos {
                fold_at(
                    tokens,
                    Node::DoubleOp {
                        op: level_operator(level),
                        left: Box::new(left),
                        right: Box::new(right),
                    },
                    next,
                    level,
                )
            } else {
                Err(next)
            },
            Err(at) => Err(at),
        }
    } else {
        Ok((left, pos))
    }
}

/// The expression that the tokens from `start` on spell, or the position of
/// the failure. Tokens left over after a complete expression are a failure.
pub open spec fn parse_tokens(tokens: Seq<Token>, start: nat) -> Result<Node, nat> {
    match parse_at(tokens, start, 0) {
        Ok((node, next)) => if next < tokens.len() {
            Err(next + 1)
        } else {
            Ok(node)
        },
        Err(at) => Err(at),
    }
}

/// The diagnostic for a failure at token position `at`: it shows the
/// character of `source` at that index, or a blank where there is none.
pub open spec fn parse_diagnostic(source: Seq<char>, at: nat) -> Seq<char> {
    diagnostic(
        source,
        match char_at(source, at) {
            Some(c) => c,
            None => ' ',
        },
        at,
    )
}

/// What parsing the tokens from `start` on returns: the tree, or the
/// diagnostic for the failure.
pub open spec fn parse_outcome(tokens: Seq<Token>, source: Seq<char>, start: nat) -> Result<
    Node,
    Seq<char>,
> {
    match parse_tokens(tokens, start) {
        Ok(node) => Ok(node),
        Err(at) => Err(parse_diagnostic(source, at)),
    }
}

/// A rule that succeeds takes at least one token and stays within the
/// input; a failure is reported between the start and the end of the input.
pub proof fn lemma_parse_bounds(tokens: Seq<Token>, pos: nat, level: nat)
    requires
        pos <= tokens.len(),
    ensures
        match parse_at(tokens, pos, level) {
            Ok((_, next)) => pos < next <= tokens.len(),
            Err(at) => pos <= at <= tokens.len(),
        },
    decreases remaining(tokens, pos), rank(level), 1nat,
{
    if level < 4 {
        lemma_parse_bounds(tokens, pos, level + 1);
        if let Ok((first, next)) = parse_at(tokens, pos, level + 1) {
            lemma_fold_bounds(tokens, first, next, level);
        }
    } else if level == 4 {
        if pos < tokens.len() && tokens[pos as int] == Token::Not {
            lemma_parse_bounds(tokens, pos + 1, 5);
        } else {
            lemma_parse_bounds(tokens, pos, 5);
        }
    } else if pos < tokens.len() {
        if tokens[pos as int] == Token::GroupOpen {
            lemma_parse_bounds(tokens, pos + 1, 0);
        }
    }
}

/// The rest of a binary rule never moves the cursor back and stays within
/// the input.
pub proof fn lemma_fold_bounds(tokens: Seq<Token>, left: Node, pos: nat, level: nat)
    requires
        pos <= tokens.len(),
    ensures
        match fold_at(tokens, left, pos, level) {
            Ok((_, next)) => pos <= next <= tokens.len(),
            Err(at) => pos <= at <= tokens.len(),
        },
    decreases remaining(tokens, pos), rank(level), 0nat,
{
    if pos < tokens.len() && tokens[pos as int] == level_operator(level) {
        lemma_parse_bounds(tokens, pos + 1, level + 1);
        if let Ok((right, next)) = parse_at(tokens, pos + 1, level + 1) {
            lemma_fold_bounds(
                tokens,
                Node::DoubleOp {
                    op: level_operator(level),
                    left: Box::new(left),
                    right: Box::new(right),
                },
                next,
                level,
            );
        }
    }
}

/// A tree that a rule yields spells the tokens that the rule has read: the
/// parse loses nothing and adds nothing.
pub proof fn lemma_parse_spells(tokens: Seq<Token>, pos: nat, level: nat)
    requires
        pos <= tokens.len(),
    ensures
        parse_at(tokens, pos, level) matches Ok((node, next)) ==> pos <= next <= tokens.len()
            && node.spelling() == tokens.subrange(pos as int, next as int),
    decreases remaining(tokens, pos), rank(level), 1nat,
{
    lemma_parse_bounds(tokens, pos, level);
    if level < 4 {
        lemma_parse_spells(tokens, pos, level + 1);
        lemma_parse_bounds(tokens, pos, level + 1);
        if let Ok((first, next)) = parse_at(tokens, pos, level + 1) {
            lemma_fold_spells(tokens, first, pos, next, level);
        }
    } else if level == 4 {
        if pos < tokens.len() && tokens[pos as int] == Token::Not {
            lemma_parse_spells(tokens, pos + 1, 5);
            if let Ok((operand, next)) = parse_at(tokens, pos + 1, 5) {
                assert(seq![Token::Not] + tokens.subrange(pos as int + 1, next as int)
                    =~= tokens.subrange(pos as int, next as int));
            }
        } else {
            lemma_parse_spells(tokens, pos, 5);
        }
    } else if pos < tokens.len() {
        match tokens[pos as int] {
            Token::GroupOpen => {
                lemma_parse_spells(tokens, pos + 1, 0);
                lemma_parse_bounds(tokens, pos + 1, 0);
                if let Ok((inner, next)) = parse_at(tokens, pos + 1, 0) {
                    if next < tokens.len() && tokens[next as int] == Token::GroupClose {
                        assert(seq![Token::GroupOpen] + tokens.subrange(pos as int + 1, next as int)
                            + seq![Token::GroupClose] =~= tokens.subrange(pos as int, next as int + 1));
                    }
                }
            },
            Token::Identifier(name) => {
                assert(seq![Token::Identifier(name)] =~= tokens.subrange(pos as int, pos as int + 1));
            },
            Token::ConstTrue => {
                assert(seq![Token::ConstTrue] =~= tokens.subrange(pos as int, pos as int + 1));
            },
            Token::ConstFalse => {
                assert(seq![Token::ConstFalse] =~= tokens.subrange(pos as int, pos as int + 1));
            },
            _ => {},
        }
    }
}

/// The rest of a binary rule keeps the tree in step with the tokens read.
pub proof fn lemma_fold_spells(tokens: Seq<Token>, left: Node, start: nat, pos: nat, level: nat)
    requires
        start <= pos <= tokens.len(),
        left.spelling() == tokens.subrange(start as int, pos as int),
    ensures
        fold_at(tokens, left, pos, level) matches Ok((node, next)) ==> pos <= next <= tokens.len()
            && node.spelling() == tokens.subrange(start as int, next as int),
    decreases remaining(tokens, pos), rank(level), 0nat,
{
    if pos < tokens.len() && tokens[pos as int] == level_operator(level) {
        lemma_parse_spells(tokens, pos + 1, level + 1);
        lemma_parse_bounds(tokens, pos + 1, level + 1);
        if let Ok((right, next)) = parse_at(tokens, pos + 1, level + 1) {
            let joined = Node::DoubleOp {
                op: level_operator(level),
                left: Box::new(left),
                right: Box::new(right),
            };
            assert(joined.spelling() =~= tokens.subrange(start as int, next as int));
            lemma_fold_spells(tokens, joined, start, next, level);
        }
    }
}

/// A tree that a rule yields has the operators of the grammar, and lower-case
/// variables where the tokens have them.
pub proof fn lemma_parse_well_formed(tokens: Seq<Token>, pos: nat, level: nat)
    requires
        pos <= tokens.len(),
        names_valid(tokens),
    ensures
        parse_at(tokens, pos, level) matches Ok((node, _)) ==> node.well_formed(),
    decreases remaining(tokens, pos), rank(level), 1nat,
{
    if level < 4 {
        lemma_parse_well_formed(tokens, pos, level + 1);
        lemma_parse_bounds(tokens, pos, level + 1);
        if let Ok((first, next)) = parse_at(tokens, pos, level + 1) {
            lemma_fold_well_formed(tokens, first, next, level);
        }
    } else if level == 4 {
        if pos < tokens.len() && tokens[pos as int] == Token::Not {
            lemma_parse_well_formed(tokens, pos + 1, 5);
        } else {
            lemma_parse_well_formed(tokens, pos, 5);
        }
    } else if pos < tokens.len() {
        if tokens[pos as int] == Token::GroupOpen {
            lemma_parse_well_formed(tokens, pos + 1, 0);
        }
    }
}

/// The rest of a binary rule keeps a well-formed tree well formed.
pub proof fn lemma_fold_well_formed(tokens: Seq<Token>, left: Node, pos: nat, level: nat)
    requires
        pos <= tokens.len(),
        names_valid(tokens),
        left.well_formed(),
        level < 4,
    ensures
        fold_at(tokens, left, pos, level) matches Ok((node, _)) ==> node.well_formed(),
    decreases remaining(tokens, pos), rank(level), 0nat,
{
    if pos < tokens.len() && tokens[pos as int] == level_operator(level) {
        lemma_parse_well_formed(tokens, pos + 1, level + 1);
        lemma_parse_bounds(tokens, pos + 1, level + 1);
        if let Ok((right, next)) = parse_at(tokens, pos + 1, level + 1) {
            lemma_fold_well_formed(
                tokens,
                Node::DoubleOp {
                    op: level_operator(level),
                    left: Box::new(left),
                    right: Box::new(right),
                },
                next,
                level,
            );
        }
    }
}

} // verus!
