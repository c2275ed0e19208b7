use bool_algebra::pipeline::{
    compile, confirm_truth_table, evaluate_bool_exp, evaluate_pass, evaluate_truth_table,
    TableStep, CONFIRM_FROM,
};

#[test]
fn test_evaluate_bool_exp_values() {
    assert_eq!(evaluate_bool_exp(&"1 & 0".to_string()), Ok(false));
    assert_eq!(evaluate_bool_exp(&"1 | 0".to_string()), Ok(true));
    assert_eq!(evaluate_bool_exp(&"1 ^ 1".to_string()), Ok(false));
    assert_eq!(evaluate_bool_exp(&"0 = 0".to_string()), Ok(true));
    assert_eq!(evaluate_bool_exp(&"!0".to_string()), Ok(true));
    assert_eq!(evaluate_bool_exp(&"true & !(false | 0)".to_string()), Ok(true));
}

#[test]
fn test_evaluate_bool_exp_rejects_identifiers() {
    assert_eq!(
        evaluate_bool_exp(&"1 & a".to_string()),
        Err("Invalid character 'a' at pos 4\n\n1 & a\n    ^^^\n".to_string())
    );
}

#[test]
fn test_evaluate_bool_exp_parse_error() {
    assert_eq!(
        evaluate_bool_exp(&"1 &".to_string()),
        Err("Invalid character '&' at pos 2\n\n1 &\n  ^^^\n".to_string())
    );
}

#[test]
fn test_evaluate_pass_row() {
    let row = evaluate_pass(&"a & !b".to_string(), 1).unwrap();
    assert_eq!(row.result, true);
    assert_eq!(row.ident_states, vec![('a', true), ('b', false)]);
    let row = evaluate_pass(&"a & !b".to_string(), 3).unwrap();
    assert_eq!(row.result, false);
    assert_eq!(row.ident_states, vec![('a', true), ('b', true)]);
}

#[test]
fn test_evaluate_pass_error() {
    assert!(evaluate_pass(&"a & ?".to_string(), 1).is_err());
    assert!(evaluate_pass(&"(a".to_string(), 1).is_err());
}

#[test]
fn test_truth_table_small() {
    match evaluate_truth_table(&"a = b".to_string()).unwrap() {
        TableStep::Table(rows) => {
            let results: Vec<bool> = rows.iter().map(|r| r.result).collect();
            assert_eq!(results, vec![true, false, false, true]);
        }
        TableStep::Confirm { .. } => panic!("a small table needs no confirmation"),
    }
}

#[test]
fn test_truth_table_or_rows() {
    match evaluate_truth_table(&"a|b".to_string()).unwrap() {
        TableStep::Table(rows) => {
            let table: Vec<(bool, bool, bool)> = rows
                .iter()
                .map(|r| (r.ident_states[0].1, r.ident_states[1].1, r.result))
                .collect();
            assert_eq!(
                table,
                vec![
                    (false, false, false),
                    (true, false, true),
                    (false, true, true),
                    (true, true, true),
                ]
            );
        }
        TableStep::Confirm { .. } => panic!("a small table needs no confirmation"),
    }
}

#[test]
fn test_truth_table_error() {
    assert!(evaluate_truth_table(&"a = ".to_string()).is_err());
}

#[test]
fn test_truth_table_seventeen_variables_is_direct() {
    let source = "a&b&c&d&e&f&g&h&i&j&k&l&m&n&o&p&q".to_string();
    match evaluate_truth_table(&source).unwrap() {
        TableStep::Table(rows) => {
            assert_eq!(rows.len(), 1 << 17);
            assert_eq!(rows[(1 << 17) - 1].result, true);
            assert_eq!(rows[(1 << 17) - 2].result, false);
        }
        TableStep::Confirm { .. } => panic!("seventeen variables need no confirmation"),
    }
}

#[test]
fn test_truth_table_large_asks_first() {
    assert_eq!(CONFIRM_FROM, 18);
    let source = "a&b&c&d&e&f&g&h&i&j&k&l&m&n&o&p&q&r".to_string();
    match evaluate_truth_table(&source).unwrap() {
        TableStep::Table(_) => panic!("eighteen variables need confirmation"),
        TableStep::Confirm { evaluator, prompt } => {
            assert_eq!(
                prompt,
                "Performance Warning: Your about to calculate 262144 results! Continue? [y|n]:"
            );
            assert_eq!(evaluator.ident_count(), 18);
            assert_eq!(confirm_truth_table(&evaluator, "n").err(), Some("Aborted".to_string()));
        }
    }
}

#[test]
fn test_confirm_truth_table_answers() {
    let evaluator = compile(&"a ^ b".to_string(), true).unwrap();
    assert_eq!(confirm_truth_table(&evaluator, "n").err(), Some("Aborted".to_string()));
    assert_eq!(confirm_truth_table(&evaluator, "y").unwrap().len(), 4);
    assert_eq!(confirm_truth_table(&evaluator, "").unwrap().len(), 4);
    assert_eq!(confirm_truth_table(&evaluator, "no").unwrap().len(), 4);
    assert_eq!(confirm_truth_table(&evaluator, "N").unwrap().len(), 4);
}

#[test]
fn test_compile_stages() {
    assert!(compile(&"a".to_string(), false).is_err());
    assert!(compile(&"a".to_string(), true).is_ok());
    assert_eq!(compile(&"b|a".to_string(), true).unwrap().get_identifiers(), vec!['a', 'b']);
}

#[test]
fn test_pipeline_is_repeatable() {
    let source = "(a ^ b) = !c".to_string();
    for pass in 0..8 {
        let first = evaluate_pass(&source, pass).unwrap();
        let second = evaluate_pass(&source, pass).unwrap();
        assert_eq!(first.result, second.result);
        assert_eq!(first.ident_states, second.ident_states);
    }
}

#[test]
fn test_syntax_tree() {
    let (tree, nodes) = bool_algebra::pipeline::syntax_tree(&"(a | b) & !c".to_string()).unwrap();
    assert_eq!(nodes, 6);
    assert_eq!(tree.get_max_depth(), 5);
    assert!(bool_algebra::pipeline::syntax_tree(&"(a | b".to_string()).is_err());
    assert!(bool_algebra::pipeline::syntax_tree(&"a # b".to_string()).is_err());
}
