//! The syntax tree of an expression.

use crate::bin_tree::{BinTree, BinTreeNode};
use crate::diagnostic::{get_char_at_index, invalid_char_error};
use crate::grammar::{
    cursor_after, fold_at, lemma_parse_bounds, lemma_parse_spells, lemma_parse_well_formed,
    parse_at, parse_diagnostic, parse_outcome, parse_tokens, rank, remaining,
};
use crate::tokenizer::{is_identifier_char, names_valid, valid_identifier, Token};
use vstd::prelude::*;
use vstd::string::*;

verus! {

/// A parsed expression.
///
/// Every child belongs to exactly one parent. A `Group` keeps a pair of
/// parentheses of the source; it means what its inner expression means.
#[derive(Debug, PartialEq, Eq)]
pub enum Node {
    Const(bool),
    Identifier(char),
    SingleOp { op: Token, operand: Box<Node> },
    DoubleOp { op: Token, left: Box<Node>, right: Box<Node> },
    Group(Box<Node>),
}

/// Whether `op` joins two operands.
pub open spec fn is_binary_operator(op: Token) -> bool {
    op == Token::And || op == Token::Or || op == Token::Xor || op == Token::Equal
}

impl Node {
    /// A tree is well formed when every unary operator is NOT, every binary
    /// operator is one of AND, OR, XOR and EQUAL, and every variable is a
    /// lower-case letter.
    pub open spec fn well_formed(self) -> bool
        decreases self,
    {
        match self {
            Node::Const(_) => true,
            Node::Identifier(c) => is_identifier_char(c),
            Node::SingleOp { op, operand } => op == Token::Not && operand.well_formed(),
            Node::DoubleOp { op, left, right } => is_binary_operator(op) && left.well_formed()
                && right.well_formed(),
            Node::Group(inner) => inner.well_formed(),
        }
    }

    /// The variables that occur in the tree.
    pub open spec fn identifiers(self) -> Set<char>
        decreases self,
    {
        match self {
            Node::Const(_) => Set::empty(),
            Node::Identifier(c) => set![c],
            Node::SingleOp { operand, .. } => operand.identifiers(),
            Node::DoubleOp { left, right, .. } => left.identifiers().union(right.identifiers()),
            Node::Group(inner) => inner.identifiers(),
        }
    }

    /// The text that shows the node without its children.
    pub open spec fn label_text(self, expanded: bool) -> Seq<char> {
        match self {
            Node::Const(value) => if value {
                "true"@
            } else {
                "false"@
            },
            Node::Identifier(name) => seq![name],
            Node::SingleOp { op, .. } => op.label_text(expanded),
            Node::DoubleOp { op, .. } => op.label_text(expanded),
            Node::Group(_) => if expanded {
                "GRP"@
            } else {
                "()"@
            },
        }
    }

    /// The tokens that spell the tree, from left to right.
    pub open spec fn spelling(self) -> Seq<Token>
        decreases self,
    {
        match self {
            Node::Const(value) => seq![
                if value {
                    Token::ConstTrue
                } else {
                    Token::ConstFalse
                },
            ],
            Node::Identifier(name) => seq![Token::Identifier(name)],
            Node::SingleOp { op, operand } => seq![op] + operand.spelling(),
            Node::DoubleOp { op, left, right } => left.spelling() + seq![op] + right.spelling(),
            Node::Group(inner) => seq![Token::GroupOpen] + inner.spelling() + seq![
                Token::GroupClose,
            ],
        }
    }

    /// The number of constants, variables and operators in the tree.
    /// Parentheses are not counted.
    pub open spec fn node_count(self) -> nat
        decreases self,
    {
        match self {
            Node::Const(_) => 1,
            Node::Identifier(_) => 1,
            Node::SingleOp { operand, .. } => 1 + operand.node_count(),
            Node::DoubleOp { left, right, .. } => 1 + left.node_count() + right.node_count(),
            Node::Group(inner) => inner.node_count(),
        }
    }
}

/// A tree has no more nodes than its spelling has tokens.
pub proof fn lemma_count_within_spelling(node: Node)
    ensures
        1 <= node.node_count() <= node.spelling().len(),
    decreases node,
{
    match node {
        Node::SingleOp { operand, .. } => lemma_count_within_spelling(*operand),
        Node::DoubleOp { left, right, .. } => {
            lemma_count_within_spelling(*left);
            lemma_count_within_spelling(*right);
        },
        Node::Group(inner) => lemma_count_within_spelling(*inner),
        _ => {},
    }
}

impl Node {
    /// Writes the node without its children: a constant as `true` or
    /// `false`, a variable as its letter, an operator as its token is
    /// written, and a group as `()`, or as `GRP` where `expanded` holds.
    pub fn label(&self, expanded: bool) -> (text: String)
        ensures
            text@ == self.label_text(expanded),
    {
        match self {
            Node::Const(value) => String::from_str(
                if *value {
                    "true"
                } else {
                    "false"
                },
            ),
            Node::Identifier(name) => Token::Identifier(*name).label(expanded),
            Node::SingleOp { op, .. } => op.label(expanded),
            Node::DoubleOp { op, .. } => op.label(expanded),
            Node::Group(_) => String::from_str(
                if expanded {
                    "GRP"
                } else {
                    "()"
                },
            ),
        }
    }

    /// Whether the tree is well formed.
    pub fn validate(&self) -> (valid: bool)
        ensures
            valid == self.well_formed(),
        decreases self,
    {
        match self {
            Node::Const(_) => true,
            Node::Identifier(name) => valid_identifier(*name),
            Node::SingleOp { op, operand } => *op == Token::Not && operand.validate(),
            Node::DoubleOp { op, left, right } => (*op == Token::And || *op == Token::Or || *op
                == Token::Xor || *op == Token::Equal) && left.validate() && right.validate(),
            Node::Group(inner) => inner.validate(),
        }
    }
}

impl Clone for Node {
    fn clone(&self) -> (copy: Self)
        ensures
            copy == *self,
        decreases self,
    {
        match self {
            Node::Const(value) => Node::Const(*value),
            Node::Identifier(name) => Node::Identifier(*name),
            Node::SingleOp { op, operand } => Node::SingleOp {
                op: *op,
                operand: Box::new((**operand).clone()),
            },
            Node::DoubleOp { op, left, right } => Node::DoubleOp {
                op: *op,
                left: Box::new((**left).clone()),
                right: Box::new((**right).clone()),
            },
            Node::Group(inner) => Node::Group(Box::new((**inner).clone())),
        }
    }
}

/// Counts the constants, variables and operators of `node`.
pub fn count_nodes(node: &Node) -> (count: usize)
    requires
        node.node_count() <= usize::MAX,
    ensures
        count == node.node_count(),
    decreases node,
{
    match node {
        Node::Const(_) => 1,
        Node::Identifier(_) => 1,
        Node::SingleOp { operand, .. } => 1 + count_nodes(operand),
        Node::DoubleOp { left, right, .. } => 1 + count_nodes(left) + count_nodes(right),
        Node::Group(inner) => count_nodes(inner),
    }
}

/// An empty child for a node that has none on the left.
pub open spec fn left_slot(node: BinTreeNode<Node>) -> Option<Box<BinTreeNode<Node>>> {
    if node.left is None {
        Some(Box::new(BinTreeNode::empty()))
    } else {
        node.left
    }
}

/// An empty child for a node that has none on the right.
pub open spec fn right_slot(node: BinTreeNode<Node>) -> Option<Box<BinTreeNode<Node>>> {
    if node.right is None {
        Some(Box::new(BinTreeNode::empty()))
    } else {
        node.right
    }
}

/// The subtree in `slot` once the expression `node` is written over it.
///
/// Nothing is written where there is no subtree. Otherwise the root takes
/// `node` as its value and gets the children it lacks, as empty nodes. The
/// operand of a unary operator and the inner expression of a group are
/// written over the left child, the operands of a binary operator over the
/// left and the right child. A child that takes no expression stays as it is.
pub open spec fn filled(slot: Option<Box<BinTreeNode<Node>>>, node: Node) -> Option<
    Box<BinTreeNode<Node>>,
>
    decreases node,
{
    match slot {
        None => None,
        Some(tree) => Some(
            Box::new(
                BinTreeNode {
                    value: Some(node),
                    left: match node {
                        Node::SingleOp { operand, .. } => filled(left_slot(*tree), *operand),
                        Node::DoubleOp { left, .. } => filled(left_slot(*tree), *left),
                        Node::Group(inner) => filled(left_slot(*tree), *inner),
                        _ => left_slot(*tree),
                    },
                    right: match node {
                        Node::DoubleOp { right, .. } => filled(right_slot(*tree), *right),
                        _ => right_slot(*tree),
                    },
                },
            ),
        ),
    }
}

/// The tree that shows the expression `node`.
///
/// The root holds `node`. The operands of an operator at the root are
/// written over its children. A constant, a variable or a group at the root
/// is written once more over the left child.
pub open spec fn tree_of(node: Node) -> BinTreeNode<Node> {
    let blank: Option<Box<BinTreeNode<Node>>> = Some(Box::new(BinTreeNode::empty()));
    BinTreeNode {
        value: Some(node),
        left: match node {
            Node::SingleOp { operand, .. } => filled(blank, *operand),
            Node::DoubleOp { left, .. } => filled(blank, *left),
            _ => filled(blank, node),
        },
        right: match node {
            Node::DoubleOp { right, .. } => filled(blank, *right),
            _ => blank,
        },
    }
}

/// Writes the expression `node` over the subtree in `tree_node`, if there is one.
pub fn ast_to_tree_loop(tree_node: &mut Option<Box<BinTreeNode<Node>>>, node: &Node)
    ensures
        *final(tree_node) == filled(*old(tree_node), *node),
    decreases node,
{
    match tree_node {
        None => {},
        Some(tree_node) => {
            tree_node.value = Some(node.clone());
            tree_node.init_left();
            tree_node.init_right();
            match node {
                Node::Const(_) => {},
                Node::Identifier(_) => {},
                Node::SingleOp { operand, .. } => ast_to_tree_loop(&mut tree_node.left, operand),
                Node::DoubleOp { left, right, .. } => {
                    ast_to_tree_loop(&mut tree_node.left, left);
                    ast_to_tree_loop(&mut tree_node.right, right);
                },
                Node::Group(inner) => ast_to_tree_loop(&mut tree_node.left, inner),
            }
        },
    }
}

/// Builds the tree that shows the expression `node`.
pub fn ast_to_tree(node: &Node) -> (tree: BinTree<Node>)
    ensures
        tree.root == tree_of(*node),
{
    let mut tree = BinTree::new();
    tree.root.value = Some(node.clone());
    tree.root.init_left();
    tree.root.init_right();
    match node {
        Node::Const(_) => ast_to_tree_loop(&mut tree.root.left, node),
        Node::Identifier(_) => ast_to_tree_loop(&mut tree.root.left, node),
        Node::SingleOp { operand, .. } => ast_to_tree_loop(&mut tree.root.left, operand),
        Node::DoubleOp { left, right, .. } => {
            ast_to_tree_loop(&mut tree.root.left, left);
            ast_to_tree_loop(&mut tree.root.right, right);
        },
        Node::Group(_) => ast_to_tree_loop(&mut tree.root.left, node),
    }
    tree
}

/// A recursive-descent parser over a token sequence.
///
/// The parser reads forward only; its cursor is the index of the next token.
/// The source text serves the diagnostics alone.
pub struct Parser {
    tokens: Vec<Token>,
    position: usize,
    original_src: String,
}

/// What a parser returns, with the text of a diagnostic in place of the string.
pub open spec fn outcome_view(res: Result<Node, String>) -> Result<Node, Seq<char>> {
    match res {
        Ok(node) => Ok(node),
        Err(msg) => Err(msg@),
    }
}

impl Parser {
    #[verifier::type_invariant]
    spec fn cursor_in_range(self) -> bool {
        self.position <= self.tokens.len()
    }

    /// The tokens that the parser reads.
    pub closed spec fn tokens(self) -> Seq<Token> {
        self.tokens@
    }

    /// The index of the next token.
    pub closed spec fn cursor(self) -> nat {
        self.position as nat
    }

    /// The source text that diagnostics quote.
    pub closed spec fn source(self) -> Seq<char> {
        self.original_src@
    }

    /// Whether the rule `level`, started where `before` stood, ended with
    /// `res` and left the parser as `self`.
    spec fn ran(self, before: Parser, level: nat, res: Result<Node, String>) -> bool {
        &&& self.tokens == before.tokens
        &&& self.original_src == before.original_src
        &&& match parse_at(before.tokens@, before.position as nat, level) {
            Ok((node, next)) => res == Ok::<Node, String>(node) && self.position == next,
            Err(at) => {
                &&& res matches Err(msg)
                &&& msg@ == parse_diagnostic(before.original_src@, at)
                &&& self.position == at
            },
        }
    }

    /// A parser at the start of `tokens`.
    pub fn new(tokens: Vec<Token>, original_src: &String) -> (parser: Self)
        ensures
            parser.tokens() == tokens@,
            parser.cursor() == 0,
            parser.source() == original_src@,
    {
        Parser { tokens, position: 0, original_src: original_src.clone() }
    }

    fn peek(&self) -> (token: Option<&Token>)
        ensures
            token == if self.position < self.tokens.len() {
                Some(&self.tokens[self.position as int])
            } else {
                None
            },
    {
        if self.position < self.tokens.len() {
            Some(&self.tokens[self.position])
        } else {
            None
        }
    }

    fn consume(&mut self) -> (token: Option<Token>)
        ensures
            final(self).tokens == old(self).tokens,
            final(self).original_src == old(self).original_src,
            final(self).position == cursor_after(old(self).tokens@, old(self).position as nat),
            token == if old(self).position < old(self).tokens.len() {
                Some(old(self).tokens[old(self).position as int])
            } else {
                None
            },
    {
        proof {
            use_type_invariant(&*self);
        }
        if self.position < self.tokens.len() {
            let token = self.tokens[self.position];
            self.position += 1;
            Some(token)
        } else {
            None
        }
    }

    /// Whether the next token is `token`.
    fn next_is(&self, token: Token) -> (r: bool)
        ensures
            r == (self.position < self.tokens.len() && self.tokens[self.position as int]
                == token),
    {
        match self.peek() {
            Some(next) => *next == token,
            None => false,
        }
    }

    /// The diagnostic for a failure at the cursor.
    fn failure(&self) -> (msg: String)
        ensures
            msg@ == parse_diagnostic(self.original_src@, self.position as nat),
    {
        let found = match get_char_at_index(&self.original_src, self.position) {
            Some(c) => c,
            None => ' ',
        };
        invalid_char_error(&self.original_src, found, self.position)
    }

    /// Parses the tokens from the cursor to the end of the input as one
    /// expression.
    ///
    /// On success the cursor stands at the end. On failure it stands where
    /// the diagnostic points.
    pub fn parse(&mut self) -> (res: Result<Node, String>)
        ensures
            final(self).tokens() == old(self).tokens(),
            final(self).source() == old(self).source(),
            outcome_view(res) == parse_outcome(
                old(self).tokens(),
                old(self).source(),
                old(self).cursor(),
            ),
            res is Ok ==> final(self).cursor() == old(self).tokens().len(),
            parse_tokens(old(self).tokens(), old(self).cursor()) matches Err(at)
                ==> final(self).cursor() == at,
            names_valid(old(self).tokens()) ==> (res matches Ok(node) ==> node.well_formed()),
            res matches Ok(node) ==> node.spelling() == old(self).tokens().skip(
                old(self).cursor() as int,
            ) && node.node_count() <= old(self).tokens().len(),
    {
        proof {
            use_type_invariant(&*self);
            lemma_parse_bounds(self.tokens@, self.position as nat, 0);
            lemma_parse_spells(self.tokens@, self.position as nat, 0);
            if let Ok((node, next)) = parse_at(self.tokens@, self.position as nat, 0) {
                lemma_count_within_spelling(node);
                if next >= self.tokens@.len() {
                    assert(self.tokens@.subrange(self.position as int, next as int)
                        =~= self.tokens@.skip(self.position as int));
                }
            }
            if names_valid(self.tokens@) {
                lemma_parse_well_formed(self.tokens@, self.position as nat, 0);
            }
        }
        match self.parse_eq() {
            Ok(node) => {
                if self.position < self.tokens.len() {
                    self.position += 1;
                    Err(self.failure())
                } else {
                    Ok(node)
                }
            },
            Err(msg) => Err(msg),
        }
    }

    fn parse_eq(&mut self) -> (res: Result<Node, String>)
        ensures
            final(self).ran(*old(self), 0, res),
        decreases remaining(old(self).tokens@, old(self).position as nat), rank(0),
    {
        proof {
            use_type_invariant(&*self);
            lemma_parse_bounds(self.tokens@, self.position as nat, 1);
        }
        let ghost start = self.position as nat;
        let mut left = match self.parse_xor() {
            Ok(node) => node,
            Err(msg) => {
                return Err(msg);
            },
        };
        while self.next_is(Token::Equal)
            invariant
                self.tokens == old(self).tokens,
                self.original_src == old(self).original_src,
                start == old(self).position,
                start <= self.position <= self.tokens.len(),
                parse_at(self.tokens@, start, 0) == fold_at(
                    self.tokens@,
                    left,
                    self.position as nat,
                    0,
                ),
            decreases self.tokens.len() - self.position,
        {
            let op = self.consume().unwrap();
            proof {
                lemma_parse_bounds(self.tokens@, self.position as nat, 1);
            }
            let right = match self.parse_xor() {
                Ok(node) => node,
                Err(msg) => {
                    return Err(msg);
                },
            };
            left = Node::DoubleOp { op, left: Box::new(left), right: Box::new(right) };
        }
        Ok(left)
    }

    fn parse_xor(&mut self) -> (res: Result<Node, String>)
        ensures
            final(self).ran(*old(self), 1, res),
        decreases remaining(old(self).tokens@, old(self).position as nat), rank(1),
    {
        proof {
            use_type_invariant(&*self);
            lemma_parse_bounds(self.tokens@, self.position as nat, 2);
        }
        let ghost start = self.position as nat;
        let mut left = match self.parse_or() {
            Ok(node) => node,
            Err(msg) => {
                return Err(msg);
            },
        };
        while self.next_is(Token::Xor)
            invariant
                self.tokens == old(self).tokens,
                self.original_src == old(self).original_src,
                start == old(self).position,
                start <= self.position <= self.tokens.len(),
                parse_at(self.tokens@, start, 1) == fold_at(
                    self.tokens@,
                    left,
                    self.position as nat,
                    1,
                ),
            decreases self.tokens.len() - self.position,
        {
            let op = self.consume().unwrap();
            proof {
                lemma_parse_bounds(self.tokens@, self.position as nat, 2);
            }
            let right = match self.parse_or() {
                Ok(node) => node,
                Err(msg) => {
                    return Err(msg);
                },
            };
            left = Node::DoubleOp { op, left: Box::new(left), right: Box::new(right) };
        }
        Ok(left)
    }

    fn parse_or(&mut self) -> (res: Result<Node, String>)
        ensures
            final(self).ran(*old(self), 2, res),
        decreases remaining(old(self).tokens@, old(self).position as nat), rank(2),
    {
        proof {
            use_type_invariant(&*self);
            lemma_parse_bounds(self.tokens@, self.position as nat, 3);
        }
        let ghost start = self.position as nat;
        let mut left = match self.parse_and() {
            Ok(node) => node,
            Err(msg) => {
                return Err(msg);
            },
        };
        while self.next_is(Token::Or)
            invariant
                self.tokens == old(self).tokens,
                self.original_src == old(self).original_src,
                start == old(self).position,
                start <= self.position <= self.tokens.len(),
                parse_at(self.tokens@, start, 2) == fold_at(
                    self.tokens@,
                    left,
                    self.position as nat,
                    2,
                ),
            decreases self.tokens.len() - self.position,
        {
            let op = self.consume().unwrap();
            proof {
                lemma_parse_bounds(self.tokens@, self.position as nat, 3);
            }
            let right = match self.parse_and() {
                Ok(node) => node,
                Err(msg) => {
                    return Err(msg);
                },
            };
            left = Node::DoubleOp { op, left: Box::new(left), right: Box::new(right) };
        }
        Ok(left)
    }

    fn parse_and(&mut self) -> (res: Result<Node, String>)
        ensures
            final(self).ran(*old(self), 3, res),
        decreases remaining(old(self).tokens@, old(self).position as nat), rank(3),
    {
        proof {
            use_type_invariant(&*self);
            lemma_parse_bounds(self.tokens@, self.position as nat, 4);
        }
        let ghost start = self.position as nat;
        let mut left = match self.parse_not() {
            Ok(node) => node,
            Err(msg) => {
                return Err(msg);
            },
        };
        while self.next_is(Token::And)
            invariant
                self.tokens == old(self).tokens,
                self.original_src == old(self).original_src,
                start == old(self).position,
                start <= self.position <= self.tokens.len(),
                parse_at(self.tokens@, start, 3) == fold_at(
                    self.tokens@,
                    left,
                    self.position as nat,
                    3,
                ),
            decreases self.tokens.len() - self.position,
        {
            let op = self.consume().unwrap();
            proof {
                lemma_parse_bounds(self.tokens@, self.position as nat, 4);
            }
            let right = match self.parse_not() {
                Ok(node) => node,
                Err(msg) => {
                    return Err(msg);
                },
            };
            left = Node::DoubleOp { op, left: Box::new(left), right: Box::new(right) };
        }
        Ok(left)
    }

    fn parse_not(&mut self) -> (res: Result<Node, String>)
        ensures
            final(self).ran(*old(self), 4, res),
        decreases remaining(old(self).tokens@, old(self).position as nat), rank(4),
    {
        proof {
            use_type_invariant(&*self);
        }
        if self.next_is(Token::Not) {
            let op = self.consume().unwrap();
            match self.parse_factor() {
                Ok(operand) => Ok(Node::SingleOp { op, operand: Box::new(operand) }),
                Err(msg) => Err(msg),
            }
        } else {
            self.parse_factor()
        }
    }

    fn parse_factor(&mut self) -> (res: Result<Node, String>)
        ensures
            final(self).ran(*old(self), 5, res),
        decreases remaining(old(self).tokens@, old(self).position as nat), rank(5),
    {
        proof {
            use_type_invariant(&*self);
        }
        match self.consume() {
            Some(Token::Identifier(name)) => Ok(Node::Identifier(name)),
            Some(Token::ConstTrue) => Ok(Node::Const(true)),
            Some(Token::ConstFalse) => Ok(Node::Const(false)),
            Some(Token::GroupOpen) => {
                proof {
                    lemma_parse_bounds(self.tokens@, self.position as nat, 0);
                }
                let inner = match self.parse_eq() {
                    Ok(node) => node,
                    Err(msg) => {
                        return Err(msg);
                    },
                };
                match self.consume() {
                    Some(Token::GroupClose) => Ok(Node::Group(Box::new(inner))),
                    _ => Err(self.failure()),
                }
            },
            _ => Err(self.failure()),
        }
    }
}

} // verus!
