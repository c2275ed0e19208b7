use bool_algebra::ast::{Node, Parser};
use bool_algebra::evaluator::Evaluator;
use bool_algebra::tokenizer::{tokenize, Token};

fn evaluator_of(source: &str) -> Evaluator {
    let source = source.to_string();
    let tokens = tokenize(&source, true).unwrap();
    Evaluator::new(Parser::new(tokens, &source).parse().unwrap())
}

#[test]
fn test_evaluator_and() {
    let ast = Node::DoubleOp {
        op: Token::And,
        left: Box::new(Node::Identifier('a')),
        right: Box::new(Node::Identifier('b')),
    };
    let evaluator = Evaluator::new(ast);
    assert_eq!(evaluator.evaluate(0), false);
    assert_eq!(evaluator.evaluate(1), false);
    assert_eq!(evaluator.evaluate(2), false);
    assert_eq!(evaluator.evaluate(3), true);
}

#[test]
fn test_evaluator_or() {
    let ast = Node::DoubleOp {
        op: Token::Or,
        left: Box::new(Node::Identifier('a')),
        right: Box::new(Node::Identifier('b')),
    };
    let evaluator = Evaluator::new(ast);
    assert_eq!(evaluator.evaluate(0), false);
    assert_eq!(evaluator.evaluate(1), true);
    assert_eq!(evaluator.evaluate(2), true);
    assert_eq!(evaluator.evaluate(3), true);
}

#[test]
fn test_evaluator_xor() {
    let ast = Node::DoubleOp {
        op: Token::Xor,
        left: Box::new(Node::Identifier('a')),
        right: Box::new(Node::Identifier('b')),
    };
    let evaluator = Evaluator::new(ast);
    assert_eq!(evaluator.evaluate(0), false);
    assert_eq!(evaluator.evaluate(1), true);
    assert_eq!(evaluator.evaluate(2), true);
    assert_eq!(evaluator.evaluate(3), false);
}

#[test]
fn test_evaluator_not() {
    let ast = Node::SingleOp { op: Token::Not, operand: Box::new(Node::Identifier('a')) };
    let evaluator = Evaluator::new(ast);
    assert_eq!(evaluator.evaluate(0), true);
    assert_eq!(evaluator.evaluate(1), false);
}

#[test]
fn test_evaluator_equals() {
    let ast = Node::DoubleOp {
        op: Token::Equal,
        left: Box::new(Node::Identifier('a')),
        right: Box::new(Node::Identifier('b')),
    };
    let evaluator = Evaluator::new(ast);
    assert_eq!(evaluator.evaluate(0), true);
    assert_eq!(evaluator.evaluate(1), false);
    assert_eq!(evaluator.evaluate(2), false);
    assert_eq!(evaluator.evaluate(3), true);
}

#[test]
fn test_evaluator_constants() {
    assert_eq!(Evaluator::new(Node::Const(true)).evaluate(0), true);
    assert_eq!(Evaluator::new(Node::Const(false)).evaluate(0), false);
    assert_eq!(Evaluator::new(Node::Const(true)).evaluate(usize::MAX), true);
}

#[test]
fn test_evaluator_and_table_rows() {
    let rows = evaluator_of("a&b").evaluate_iter();
    let table: Vec<(bool, bool, bool)> =
        rows.iter().map(|r| (r.ident_states[0].1, r.ident_states[1].1, r.result)).collect();
    assert_eq!(
        table,
        vec![
            (false, false, false),
            (true, false, false),
            (false, true, false),
            (true, true, true),
        ]
    );
}

#[test]
fn test_evaluator_row_layout() {
    let rows = evaluator_of("b | a").evaluate_iter();
    assert_eq!(rows.len(), 4);
    assert_eq!(rows[0].ident_states, vec![('a', false), ('b', false)]);
    assert_eq!(rows[1].ident_states, vec![('a', true), ('b', false)]);
    assert_eq!(rows[2].ident_states, vec![('a', false), ('b', true)]);
    assert_eq!(rows[3].ident_states, vec![('a', true), ('b', true)]);
    assert_eq!(rows[0].result, false);
    assert_eq!(rows[1].result, true);
    assert_eq!(rows[2].result, true);
    assert_eq!(rows[3].result, true);
}

#[test]
fn test_evaluator_row_count_is_power_of_two() {
    assert_eq!(evaluator_of("1").evaluate_iter().len(), 1);
    assert_eq!(evaluator_of("a").evaluate_iter().len(), 2);
    assert_eq!(evaluator_of("a & a").evaluate_iter().len(), 2);
    assert_eq!(evaluator_of("a & b").evaluate_iter().len(), 4);
    assert_eq!(evaluator_of("a & b | c").evaluate_iter().len(), 8);
    assert_eq!(evaluator_of("a&b&c&d&e&f&g&h&i&j").evaluate_iter().len(), 1024);
}

#[test]
fn test_evaluator_row_count_function() {
    assert_eq!(evaluator_of("0").row_count(), 1);
    assert_eq!(evaluator_of("x ^ y ^ z").row_count(), 8);
    assert_eq!(evaluator_of("x ^ y ^ z").ident_count(), 3);
    let all = "a&b&c&d&e&f&g&h&i&j&k&l&m&n&o&p&q&r&s&t&u&v&w&x&y&z";
    assert_eq!(evaluator_of(all).ident_count(), 26);
    assert_eq!(evaluator_of(all).row_count(), 67108864);
}

#[test]
fn test_evaluator_constant_has_one_row() {
    let rows = evaluator_of("1 & 0").evaluate_iter();
    assert_eq!(rows.len(), 1);
    assert_eq!(rows[0].result, false);
    assert!(rows[0].ident_states.is_empty());
}

#[test]
fn test_evaluator_one_variable() {
    let rows = evaluator_of("!q").evaluate_iter();
    assert_eq!(rows.len(), 2);
    assert_eq!(rows[0].ident_states, vec![('q', false)]);
    assert_eq!(rows[0].result, true);
    assert_eq!(rows[1].ident_states, vec![('q', true)]);
    assert_eq!(rows[1].result, false);
}

#[test]
fn test_evaluator_all_letters() {
    let all = "a&b&c&d&e&f&g&h&i&j&k&l&m&n&o&p&q&r&s&t&u&v&w&x&y&z";
    let evaluator = evaluator_of(all);
    assert_eq!(evaluator.get_identifiers().len(), 26);
    assert_eq!(evaluator.evaluate((1 << 26) - 1), true);
    assert_eq!(evaluator.evaluate((1 << 26) - 2), false);
    assert_eq!(evaluator.evaluate((1 << 25) - 1), false);
    assert_eq!(evaluator.get_ident_bit('z', 1 << 25), true);
    assert_eq!(evaluator.get_ident_bit('y', 1 << 25), false);
    let row = evaluator.pass_result(1 << 25);
    assert_eq!(row.ident_states.len(), 26);
    assert_eq!(row.ident_states[25], ('z', true));
    assert_eq!(row.ident_states[0], ('a', false));
}

#[test]
fn test_evaluator_identifiers_are_sorted() {
    assert_eq!(evaluator_of("z & a | m & a").get_identifiers(), vec!['a', 'm', 'z']);
    assert_eq!(evaluator_of("a | m & z").get_identifiers(), vec!['a', 'm', 'z']);
    assert_eq!(evaluator_of("1").get_identifiers(), vec![]);
}

#[test]
fn test_evaluator_index_ignores_order_of_appearance() {
    let first = evaluator_of("b & !a");
    let second = evaluator_of("!a & b");
    for pass in 0..4 {
        assert_eq!(first.evaluate(pass), second.evaluate(pass));
        assert_eq!(first.get_ident_bit('a', pass), pass & 1 != 0);
        assert_eq!(first.get_ident_bit('b', pass), pass & 2 != 0);
        assert_eq!(second.get_ident_bit('a', pass), pass & 1 != 0);
        assert_eq!(second.get_ident_bit('b', pass), pass & 2 != 0);
    }
    assert_eq!(first.evaluate(0), false);
    assert_eq!(first.evaluate(1), false);
    assert_eq!(first.evaluate(2), true);
    assert_eq!(first.evaluate(3), false);
}

#[test]
fn test_evaluator_sparse_letters() {
    let evaluator = evaluator_of("x & c");
    assert_eq!(evaluator.get_identifiers(), vec!['c', 'x']);
    assert_eq!(evaluator.get_ident_bit('c', 1), true);
    assert_eq!(evaluator.get_ident_bit('x', 1), false);
    assert_eq!(evaluator.get_ident_bit('x', 2), true);
    assert_eq!(evaluator.evaluate(3), true);
    assert_eq!(evaluator.evaluate(2), false);
}

#[test]
fn test_evaluator_high_bits_are_ignored() {
    let evaluator = evaluator_of("a");
    assert_eq!(evaluator.evaluate(2), false);
    assert_eq!(evaluator.evaluate(3), true);
    assert_eq!(evaluator.evaluate(usize::MAX), true);
    assert_eq!(evaluator.evaluate(usize::MAX - 1), false);
}

#[test]
fn test_evaluator_group_is_transparent() {
    let plain = evaluator_of("a&b");
    let grouped = evaluator_of("(a&b)");
    let nested = evaluator_of("((a)&(b))");
    for pass in 0..4 {
        assert_eq!(plain.evaluate(pass), grouped.evaluate(pass));
        assert_eq!(plain.evaluate(pass), nested.evaluate(pass));
    }
    assert_eq!(grouped.get_identifiers(), plain.get_identifiers());
}

#[test]
fn test_evaluator_group_changes_precedence() {
    let plain = evaluator_of("a | b & c");
    let grouped = evaluator_of("(a | b) & c");
    assert_eq!(plain.evaluate(1), true);
    assert_eq!(grouped.evaluate(1), false);
}

#[test]
fn test_evaluator_is_repeatable() {
    let first = evaluator_of("(a ^ b) = !c | 0");
    let second = evaluator_of("(a ^ b) = !c | 0");
    for pass in 0..8 {
        assert_eq!(first.evaluate(pass), second.evaluate(pass));
        assert_eq!(first.evaluate(pass), first.evaluate(pass));
    }
}

#[test]
fn test_evaluator_mixed_expression() {
    let evaluator = evaluator_of("(a ^ b) = !c | 0");
    let expected = [false, true, true, false, true, false, false, true];
    for pass in 0..8 {
        assert_eq!(evaluator.evaluate(pass), expected[pass]);
    }
}

#[test]
fn test_evaluator_double_negation_with_group() {
    let evaluator = evaluator_of("!(!a)");
    assert_eq!(evaluator.evaluate(0), false);
    assert_eq!(evaluator.evaluate(1), true);
}

#[test]
fn test_evaluator_pass_result_matches_table() {
    let evaluator = evaluator_of("a ^ b");
    let rows = evaluator.evaluate_iter();
    for pass in 0..4 {
        let row = evaluator.pass_result(pass);
        assert_eq!(row.result, rows[pass].result);
        assert_eq!(row.ident_states, rows[pass].ident_states);
    }
}
