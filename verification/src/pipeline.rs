//! From source text to truth values: scanning, parsing and evaluation in
//! one call.

use crate::ast::{ast_to_tree, count_nodes, outcome_view, tree_of, Node, Parser};
use crate::bin_tree::BinTree;
use crate::diagnostic::{decimal, push_decimal};
use crate::evaluator::{
    row_at, rows_in_name_order, rows_view, table_shaped, truth_table, Evaluator,
    EvaluatorPassResult,
};
use crate::grammar::parse_outcome;
use crate::tokenizer::{tokenize, tokenize_outcome, Token};
use vstd::arithmetic::power2::pow2;
use vstd::prelude::*;
use vstd::string::*;

verus! {

/// The number of variables from which a truth table is large enough to ask
/// before it is computed.
pub const CONFIRM_FROM: usize = 18;

/// The tree that the text `source` spells, or the diagnostic of the stage
/// that refused it.
pub open spec fn compile_outcome(source: Seq<char>, allow_identifiers: bool) -> Result<
    Node,
    Seq<char>,
> {
    match tokenize_outcome(source, allow_identifiers) {
        Ok(tokens) => parse_outcome(tokens, source, 0),
        Err(msg) => Err(msg),
    }
}

/// The question put before a table of `rows` rows is computed.
pub open spec fn confirm_prompt(rows: nat) -> Seq<char> {
    "Performance Warning: Your about to calculate "@ + decimal(rows)
        + " results! Continue? [y|n]:"@
}

/// What a request for a truth table leads to.
pub enum TableStep {
    /// The table.
    Table(Vec<EvaluatorPassResult>),
    /// The table is large. `prompt` asks whether to go on; the answer and
    /// `evaluator` go to `confirm_truth_table`.
    Confirm { evaluator: Evaluator, prompt: String },
}

/// Scans and parses `expression`, and numbers the variables of its tree.
pub fn compile(expression: &String, allow_identifiers: bool) -> (res: Result<Evaluator, String>)
    ensures
        match res {
            Ok(evaluator) => compile_outcome(expression@, allow_identifiers) == Ok::<
                Node,
                Seq<char>,
            >(evaluator.ast()) && evaluator.ast().well_formed(),
            Err(msg) => compile_outcome(expression@, allow_identifiers) == Err::<
                Node,
                Seq<char>,
            >(msg@),
        },
{
    let tokens = match tokenize(expression, allow_identifiers) {
        Ok(tokens) => tokens,
        Err(msg) => {
            return Err(msg);
        },
    };
    let mut parser = Parser::new(tokens, expression);
    match parser.parse() {
        Ok(ast) => Ok(Evaluator::new(ast)),
        Err(msg) => Err(msg),
    }
}

/// The tree that shows `expression`, with the number of its nodes.
pub fn syntax_tree(expression: &String) -> (res: Result<(BinTree<Node>, usize), String>)
    ensures
        match compile_outcome(expression@, true) {
            Ok(ast) => res matches Ok((tree, nodes)) && tree.root == tree_of(ast) && nodes
                == ast.node_count(),
            Err(text) => res matches Err(msg) && msg@ == text,
        },
{
    let tokens = match tokenize(expression, true) {
        Ok(tokens) => tokens,
        Err(msg) => {
            return Err(msg);
        },
    };
    let ghost token_count = tokens.len();
    let mut parser = Parser::new(tokens, expression);
    match parser.parse() {
        Ok(ast) => {
            assert(ast.node_count() <= token_count);
            let nodes = count_nodes(&ast);
            Ok((ast_to_tree(&ast), nodes))
        },
        Err(msg) => Err(msg),
    }
}

/// The value of an expression without variables.
pub fn evaluate_bool_exp(expression: &String) -> (res: Result<bool, String>)
    ensures
        match compile_outcome(expression@, false) {
            Ok(ast) => res == Ok::<bool, String>(row_at(ast, 0).result),
            Err(text) => res matches Err(msg) && msg@ == text,
        },
{
    match compile(expression, false) {
        Ok(evaluator) => Ok(evaluator.evaluate(0)),
        Err(msg) => Err(msg),
    }
}

/// The row of the truth table of `expression` for the mask `pass`.
pub fn evaluate_pass(expression: &String, pass: usize) -> (res: Result<EvaluatorPassResult, String>)
    ensures
        match compile_outcome(expression@, true) {
            Ok(ast) => res matches Ok(row) && row@ == row_at(ast, pass),
            Err(text) => res matches Err(msg) && msg@ == text,
        },
{
    match compile(expression, true) {
        Ok(evaluator) => Ok(evaluator.pass_result(pass)),
        Err(msg) => Err(msg),
    }
}

/// The truth table of `expression`, or, from `CONFIRM_FROM` variables on,
/// the question to ask before it is computed.
pub fn evaluate_truth_table(expression: &String) -> (res: Result<TableStep, String>)
    ensures
        match compile_outcome(expression@, true) {
            Ok(ast) => match res {
                Ok(TableStep::Table(rows)) => {
                    &&& ast.identifiers().len() < CONFIRM_FROM
                    &&& rows_view(rows@) == truth_table(ast)
                    &&& table_shaped(rows_view(rows@))
                    &&& rows_in_name_order(rows_view(rows@))
                },
                Ok(TableStep::Confirm { evaluator, prompt }) => {
                    &&& ast.identifiers().len() >= CONFIRM_FROM
                    &&& evaluator.ast() == ast
                    &&& prompt@ == confirm_prompt(pow2(ast.identifiers().len()))
                },
                Err(_) => false,
            },
            Err(text) => res matches Err(msg) && msg@ == text,
        },
{
    let evaluator = match compile(expression, true) {
        Ok(evaluator) => evaluator,
        Err(msg) => {
            return Err(msg);
        },
    };
    let ident_count = evaluator.ident_count();
    if ident_count >= CONFIRM_FROM {
        let mut prompt = String::from_str("Performance Warning: Your about to calculate ");
        push_decimal(&mut prompt, evaluator.row_count());
        prompt.append(" results! Continue? [y|n]:");
        Ok(TableStep::Confirm { evaluator, prompt })
    } else {
        Ok(TableStep::Table(evaluator.evaluate_iter()))
    }
}

/// Whether `answer` declines.
pub open spec fn declines(answer: Seq<char>) -> bool {
    answer == seq!['n']
}

/// Acts on the answer to the question of `evaluate_truth_table`: the table,
/// unless the answer is `n`.
pub fn confirm_truth_table(evaluator: &Evaluator, answer: &str) -> (res: Result<
    Vec<EvaluatorPassResult>,
    String,
>)
    ensures
        match res {
            Ok(rows) => {
                &&& !declines(answer@)
                &&& rows_view(rows@) == truth_table(evaluator.ast())
                &&& table_shaped(rows_view(rows@))
                &&& rows_in_name_order(rows_view(rows@))
            },
            Err(msg) => declines(answer@) && msg@ == "Aborted"@,
        },
{
    if answer.unicode_len() == 1 && answer.get_char(0) == 'n' {
        assert(answer@ =~= seq!['n']);
        Err(String::from_str("Aborted"))
    } else {
        Ok(evaluator.evaluate_iter())
    }
}

/// Parsing and evaluation are functions of their input. Whatever two runs
/// of the parser on the same tokens, the same source and the same cursor
/// return, they return the same tree, or diagnostics with the same text;
/// and whatever two evaluators of that tree return for the same mask, they
/// return the same value.
pub proof fn lemma_parse_then_evaluate_is_deterministic(
    tokens: Seq<Token>,
    source: Seq<char>,
    start: nat,
    pass: usize,
    first: Result<Node, String>,
    second: Result<Node, String>,
    first_evaluator: Evaluator,
    second_evaluator: Evaluator,
    first_value: bool,
    second_value: bool,
)
    requires
        outcome_view(first) == parse_outcome(tokens, source, start),
        outcome_view(second) == parse_outcome(tokens, source, start),
        first matches Ok(tree) ==> first_evaluator.ast() == tree,
        second matches Ok(tree) ==> second_evaluator.ast() == tree,
        first_value == first_evaluator.value_at(pass),
        second_value == second_evaluator.value_at(pass),
    ensures
        outcome_view(first) == outcome_view(second),
        first matches Ok(tree) ==> second == Ok::<Node, String>(tree) && first_value
            == second_value,
        first matches Err(msg) ==> second matches Err(other) && msg@ == other@,
{
}

/// Scanning, parsing and evaluation are functions of their input: two runs
/// on the same text and the same mask end alike, in the same row or in
/// diagnostics with the same text.
pub proof fn lemma_pipeline_is_deterministic(
    source: Seq<char>,
    pass: usize,
    first: Result<EvaluatorPassResult, String>,
    second: Result<EvaluatorPassResult, String>,
)
    requires
        match compile_outcome(source, true) {
            Ok(ast) => first matches Ok(row) && row@ == row_at(ast, pass),
            Err(text) => first matches Err(msg) && msg@ == text,
        },
        match compile_outcome(source, true) {
            Ok(ast) => second matches Ok(row) && row@ == row_at(ast, pass),
            Err(text) => second matches Err(msg) && msg@ == text,
        },
    ensures
        first matches Ok(a) ==> second matches Ok(b) && a@ == b@,
        first matches Err(a) ==> second matches Err(b) && a@ == b@,
{
}

} // verus!
