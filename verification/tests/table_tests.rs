use bool_algebra::evaluator::EvaluatorPassResult;
use bool_algebra::pipeline::compile;
use bool_algebra::table::{state_values, table_header, truth_table_of, truth_table_text, RowFilter};
use tabled::builder::Builder;
use tabled::settings::Style;

fn rounded(records: Vec<Vec<&str>>) -> String {
    let mut builder = Builder::new();
    for record in records {
        builder.push_record(record);
    }
    let mut table = builder.build();
    table.with(Style::rounded());
    table.to_string()
}

fn row(result: bool, states: &[(char, bool)]) -> EvaluatorPassResult {
    EvaluatorPassResult { result, ident_states: states.to_vec() }
}

#[test]
fn test_table_and() {
    let evaluator = compile(&"a&b".to_string(), true).unwrap();
    let expected = [
        "╭───────┬───────┬────────╮",
        "│ a     │ b     │ Result │",
        "├───────┼───────┼────────┤",
        "│ false │ false │ false  │",
        "│ true  │ false │ false  │",
        "│ false │ true  │ false  │",
        "│ true  │ true  │ true   │",
        "╰───────┴───────┴────────╯",
    ];
    assert_eq!(truth_table_of(&evaluator, RowFilter::All), expected.join("\n"));
}

#[test]
fn test_table_filters() {
    let evaluator = compile(&"a^b".to_string(), true).unwrap();
    assert_eq!(
        truth_table_of(&evaluator, RowFilter::OnlyTrue),
        rounded(vec![
            vec!["a", "b", "Result"],
            vec!["true", "false", "true"],
            vec!["false", "true", "true"],
        ])
    );
    assert_eq!(
        truth_table_of(&evaluator, RowFilter::OnlyFalse),
        rounded(vec![
            vec!["a", "b", "Result"],
            vec!["false", "false", "false"],
            vec!["true", "true", "false"],
        ])
    );
}

#[test]
fn test_table_without_shown_rows() {
    let evaluator = compile(&"a & !a".to_string(), true).unwrap();
    assert_eq!(
        truth_table_of(&evaluator, RowFilter::OnlyTrue),
        rounded(vec![vec!["a", "Result"]])
    );
}

#[test]
fn test_table_of_constant() {
    let evaluator = compile(&"1 | 0".to_string(), true).unwrap();
    assert_eq!(
        truth_table_of(&evaluator, RowFilter::All),
        rounded(vec![vec!["Result"], vec!["true"]])
    );
    assert_eq!(
        truth_table_of(&evaluator, RowFilter::OnlyFalse),
        rounded(vec![vec!["Result"]])
    );
}

#[test]
fn test_table_puts_states_in_name_order() {
    let rows = vec![
        row(false, &[('b', false), ('a', true)]),
        row(true, &[('b', true), ('a', false)]),
    ];
    assert_eq!(
        truth_table_text(&rows, RowFilter::All),
        rounded(vec![
            vec!["a", "b", "Result"],
            vec!["true", "false", "false"],
            vec!["false", "true", "true"],
        ])
    );
}

#[test]
fn test_table_sort_is_stable() {
    let rows = vec![row(true, &[('c', true), ('a', false), ('c', false), ('a', true)])];
    assert_eq!(
        truth_table_text(&rows, RowFilter::All),
        rounded(vec![
            vec!["a", "a", "c", "c", "Result"],
            vec!["false", "true", "true", "false", "true"],
        ])
    );
}

#[test]
fn test_table_head_comes_from_first_row() {
    let rows = vec![row(false, &[('x', false)]), row(true, &[('y', true)])];
    assert_eq!(
        truth_table_text(&rows, RowFilter::OnlyTrue),
        rounded(vec![vec!["x", "Result"], vec!["true", "true"]])
    );
}

#[test]
fn test_table_matches_rows() {
    let evaluator = compile(&"(p | q) = r".to_string(), true).unwrap();
    let rows = evaluator.evaluate_iter();
    assert_eq!(
        truth_table_text(&rows, RowFilter::All),
        truth_table_of(&evaluator, RowFilter::All)
    );
    assert_eq!(truth_table_text(&rows, RowFilter::All).lines().count(), 3 + 8 + 1);
}

#[test]
fn test_row_filter_from_flags() {
    assert_eq!(RowFilter::from_flags(false, false), Ok(RowFilter::All));
    assert_eq!(RowFilter::from_flags(true, false), Ok(RowFilter::OnlyTrue));
    assert_eq!(RowFilter::from_flags(false, true), Ok(RowFilter::OnlyFalse));
    assert_eq!(
        RowFilter::from_flags(true, true),
        Err("Cannot filter for both true and false".to_string())
    );
}

#[test]
fn test_row_filter_keeps() {
    let yes = row(true, &[]);
    let no = row(false, &[]);
    assert!(RowFilter::All.keeps(&yes));
    assert!(RowFilter::All.keeps(&no));
    assert!(RowFilter::OnlyTrue.keeps(&yes));
    assert!(!RowFilter::OnlyTrue.keeps(&no));
    assert!(!RowFilter::OnlyFalse.keeps(&yes));
    assert!(RowFilter::OnlyFalse.keeps(&no));
}

#[test]
fn test_table_header_and_values() {
    let states = vec![('a', true), ('k', false)];
    assert_eq!(table_header(&states), vec!["a", "k", "Result"]);
    assert_eq!(state_values(&states), vec!["true", "false"]);
    assert_eq!(table_header(&vec![]), vec!["Result"]);
    assert!(state_values(&vec![]).is_empty());
}
